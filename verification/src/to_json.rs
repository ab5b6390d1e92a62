//! Messages as JSON.
//!
//! Nesting is bounded: every message inside another costs one level, and so
//! does the payload of an `Any`, whose bytes are decoded with the levels that
//! are left. So what is nested in the bytes of an `Any` counts like any other
//! nesting.
use std::sync::Arc;
use vstd::prelude::*;
use crate::any::{any_type, bytes_at, resolve_any_type, text_at};
use crate::decode::{decoded, depth_options, RECURSION_LIMIT};
use crate::descriptor::{
    field_linked, pool_of, share_pool, singular_linked, DescriptorPool, EnumIndex,
    EnumValueDescriptor, FieldDescriptor, FieldKind, SingularKind,
};
use crate::json::{
    array_view, double_is_infinite, double_is_nan, key_text, object_view, scalar_json,
    serialize_key, serialize_scalar, writes, Json, JsonError, JsonModel,
};
use crate::map::MapValue;
use crate::message::has_field;
use crate::scalar::{default_scalar_value, scalar_default};
use crate::shape::{full_name, value_fits, value_matches_field_shape};
use crate::text::{join2, join3, quoted, quoted_text, same_text};
use crate::value::{
    field_get, items_view, DynamicMessage, KeyModel, MapKey, MessageModel, Value, ValueModel,
};
use crate::wire::{decode_error_text, DecodeError};
use crate::wkt::{
    duration_text, fmt_duration, fmt_field_mask, fmt_timestamp, mask_json, mask_paths,
    parsed_duration, parsed_timestamp, texts_view, timestamp_text, wkt_of, WktKind,
};

verus! {

/// What is said where messages nest too deep.
pub open spec fn too_deep() -> Seq<char> {
    "message nesting depth exceeds buffa::RECURSION_LIMIT (100)"@
}

fn nesting_too_deep() -> (r: JsonError)
    ensures
        r@ == too_deep(),
{
    JsonError::new("message nesting depth exceeds buffa::RECURSION_LIMIT (100)")
}

// ── What messages are in JSON ───────────────────────────────────────────────

/// The position, from `i` on, of the first name for the number.
pub open spec fn number_at(values: Seq<EnumValueDescriptor>, n: i32, i: nat) -> Option<nat>
    decreases values.len() - i,
{
    if i >= values.len() {
        None
    } else if values[i as int].number == n {
        Some(i)
    } else {
        number_at(values, n, i + 1)
    }
}

/// An enum number in JSON: its name, or the number where it has none; null for
/// `google.protobuf.NullValue`.
pub open spec fn enum_json(pool: DescriptorPool, e: EnumIndex, n: i32) -> JsonModel {
    let ed = pool.enum_seq()[e.0 as int];
    if ed.full_name@ == "google.protobuf.NullValue"@ {
        JsonModel::Null
    } else {
        match number_at(ed.values@, n, 0) {
            Some(i) => JsonModel::Text(ed.values@[i as int].name@),
            None => JsonModel::Int(n as i64),
        }
    }
}

/// The integer in field `n`; zero where there is none.
pub open spec fn i64_at(m: MessageModel, n: u32) -> i64 {
    match field_get(m.fields, n) {
        Some(ValueModel::I64(x)) => x,
        _ => 0,
    }
}

/// The integer in field `n`; zero where there is none.
pub open spec fn i32_at(m: MessageModel, n: u32) -> i32 {
    match field_get(m.fields, n) {
        Some(ValueModel::I32(x)) => x,
        _ => 0,
    }
}

/// The strings among values.
pub open spec fn texts_of(l: Seq<ValueModel>) -> Seq<Seq<char>>
    decreases l.len(),
{
    if l.len() == 0 {
        Seq::empty()
    } else {
        match l.last() {
            ValueModel::Text(s) => texts_of(l.drop_last()).push(s),
            _ => texts_of(l.drop_last()),
        }
    }
}

/// The strings in the list of field `n`.
pub open spec fn texts_at(m: MessageModel, n: u32) -> Seq<Seq<char>> {
    match field_get(m.fields, n) {
        Some(ValueModel::List(l)) => texts_of(l),
        _ => Seq::empty(),
    }
}

/// A message inside another, which has `depth` levels left for it.
pub open spec fn nested_json(m: MessageModel, depth: nat) -> Result<JsonModel, Seq<char>>
    decreases depth, 0nat, 0nat,
{
    if depth == 0 {
        Err(too_deep())
    } else {
        message_json(m, (depth - 1) as nat)
    }
}

/// A message in JSON; `depth` levels are left for the messages in it.
pub open spec fn message_json(m: MessageModel, depth: nat) -> Result<JsonModel, Seq<char>>
    decreases depth, 9nat, 0nat,
{
    match wkt_of(full_name(m)) {
        Some(w) => wkt_json(w, m, depth),
        None => match members_json(m, 0, depth) {
            Ok(o) => Ok(JsonModel::Object(o)),
            Err(e) => Err(e),
        },
    }
}

/// The members of a plain message: those declared fields, from the `i`-th on,
/// that are set.
pub open spec fn members_json(m: MessageModel, i: nat, depth: nat) -> Result<
    Seq<(Seq<char>, JsonModel)>,
    Seq<char>,
>
    decreases depth, 5nat, m.pool.message_seq()[m.index.0 as int].fields@.len() - i,
{
    let fields = m.pool.message_seq()[m.index.0 as int].fields@;
    if i >= fields.len() {
        Ok(Seq::empty())
    } else {
        let fd = fields[i as int];
        if !has_field(m, fd) {
            members_json(m, i + 1, depth)
        } else {
            match value_json(m.pool, fd, field_get(m.fields, fd.number)->Some_0, depth) {
                Err(e) => Err(e),
                Ok(j) => match members_json(m, i + 1, depth) {
                    Err(e) => Err(e),
                    Ok(rest) => Ok(seq![(fd.json_name@, j)] + rest),
                },
            }
        }
    }
}

/// The value of a field in JSON; null where it does not fit the field.
pub open spec fn value_json(
    pool: DescriptorPool,
    fd: FieldDescriptor,
    v: ValueModel,
    depth: nat,
) -> Result<JsonModel, Seq<char>>
    decreases depth, 4nat, 0nat,
{
    if !value_fits(fd.kind, v, pool) {
        Ok(JsonModel::Null)
    } else {
        match (fd.kind, v) {
            (FieldKind::Singular(k), _) => element_json(pool, k, v, depth),
            (FieldKind::List(k), ValueModel::List(l)) => match items_json(pool, k, l, 0, depth) {
                Ok(a) => Ok(JsonModel::Array(a)),
                Err(e) => Err(e),
            },
            (FieldKind::Mapping { key, value }, ValueModel::Mapping(e)) => match entries_json(
                pool,
                value,
                e,
                0,
                depth,
            ) {
                Ok(o) => Ok(JsonModel::Object(o)),
                Err(e) => Err(e),
            },
            _ => Ok(JsonModel::Null),
        }
    }
}

/// An element in JSON.
pub open spec fn element_json(
    pool: DescriptorPool,
    kind: SingularKind,
    v: ValueModel,
    depth: nat,
) -> Result<JsonModel, Seq<char>>
    decreases depth, 1nat, 0nat,
{
    match (kind, v) {
        (SingularKind::Scalar(s), _) => Ok(scalar_json(s, v)),
        (SingularKind::Enum(e), ValueModel::EnumNumber(n)) => Ok(enum_json(pool, e, n)),
        (SingularKind::Message(_), ValueModel::Message(x)) => nested_json(x, depth),
        _ => Ok(JsonModel::Null),
    }
}

/// The elements of a list, from the `i`-th on, in JSON.
pub open spec fn items_json(
    pool: DescriptorPool,
    kind: SingularKind,
    l: Seq<ValueModel>,
    i: nat,
    depth: nat,
) -> Result<Seq<JsonModel>, Seq<char>>
    decreases depth, 2nat, l.len() - i,
{
    if i >= l.len() {
        Ok(Seq::empty())
    } else {
        match element_json(pool, kind, l[i as int], depth) {
            Err(e) => Err(e),
            Ok(j) => match items_json(pool, kind, l, i + 1, depth) {
                Err(e) => Err(e),
                Ok(rest) => Ok(seq![j] + rest),
            },
        }
    }
}

/// The entries of a map, from the `i`-th on, in JSON.
pub open spec fn entries_json(
    pool: DescriptorPool,
    kind: SingularKind,
    e: Seq<(KeyModel, ValueModel)>,
    i: nat,
    depth: nat,
) -> Result<Seq<(Seq<char>, JsonModel)>, Seq<char>>
    decreases depth, 2nat, e.len() - i,
{
    if i >= e.len() {
        Ok(Seq::empty())
    } else {
        match element_json(pool, kind, e[i as int].1, depth) {
            Err(x) => Err(x),
            Ok(j) => match entries_json(pool, kind, e, i + 1, depth) {
                Err(x) => Err(x),
                Ok(rest) => Ok(seq![(key_text(e[i as int].0), j)] + rest),
            },
        }
    }
}

/// A well-known type in JSON.
pub open spec fn wkt_json(w: WktKind, m: MessageModel, depth: nat) -> Result<JsonModel, Seq<char>>
    decreases depth, 8nat, 0nat,
{
    match w {
        WktKind::Timestamp => as_text(timestamp_text(i64_at(m, 1), i32_at(m, 2))),
        WktKind::Duration => as_text(duration_text(i64_at(m, 1), i32_at(m, 2))),
        WktKind::FieldMask => as_text(mask_json(texts_at(m, 1))),
        WktKind::Empty => Ok(JsonModel::Object(Seq::empty())),
        WktKind::Wrapper(s) => match field_get(m.fields, 1) {
            Some(v) => Ok(scalar_json(s, v)),
            None => Ok(scalar_json(s, scalar_default(s))),
        },
        WktKind::Struct => match field_get(m.fields, 1) {
            Some(ValueModel::Mapping(e)) => match struct_json(e, 0, depth) {
                Ok(o) => Ok(JsonModel::Object(o)),
                Err(x) => Err(x),
            },
            _ => Ok(JsonModel::Object(Seq::empty())),
        },
        WktKind::ListValue => match field_get(m.fields, 1) {
            Some(ValueModel::List(l)) => match list_json(l, 0, depth) {
                Ok(a) => Ok(JsonModel::Array(a)),
                Err(x) => Err(x),
            },
            _ => Ok(JsonModel::Array(Seq::empty())),
        },
        WktKind::JsonValue => dynamic_json(m, depth),
        WktKind::Any => any_json(m, depth),
    }
}

/// A text as a JSON string.
pub open spec fn as_text(r: Result<Seq<char>, Seq<char>>) -> Result<JsonModel, Seq<char>> {
    match r {
        Ok(t) => Ok(JsonModel::Text(t)),
        Err(e) => Err(e),
    }
}

/// The entries of a `Struct`, from the `i`-th on, in JSON.
pub open spec fn struct_json(e: Seq<(KeyModel, ValueModel)>, i: nat, depth: nat) -> Result<
    Seq<(Seq<char>, JsonModel)>,
    Seq<char>,
>
    decreases depth, 2nat, e.len() - i,
{
    if i >= e.len() {
        Ok(Seq::empty())
    } else {
        match (e[i as int].0, e[i as int].1) {
            (KeyModel::Text(k), ValueModel::Message(x)) => match nested_json(x, depth) {
                Err(x) => Err(x),
                Ok(j) => match struct_json(e, i + 1, depth) {
                    Err(x) => Err(x),
                    Ok(rest) => Ok(seq![(k, j)] + rest),
                },
            },
            (KeyModel::Text(_), _) => Err("Struct value must be message"@),
            _ => Err("Struct map key must be string"@),
        }
    }
}

/// The elements of a `ListValue`, from the `i`-th on, in JSON.
pub open spec fn list_json(l: Seq<ValueModel>, i: nat, depth: nat) -> Result<
    Seq<JsonModel>,
    Seq<char>,
>
    decreases depth, 2nat, l.len() - i,
{
    if i >= l.len() {
        Ok(Seq::empty())
    } else {
        match l[i as int] {
            ValueModel::Message(x) => match nested_json(x, depth) {
                Err(x) => Err(x),
                Ok(j) => match list_json(l, i + 1, depth) {
                    Err(x) => Err(x),
                    Ok(rest) => Ok(seq![j] + rest),
                },
            },
            _ => Err("ListValue elem must be message"@),
        }
    }
}

/// A `google.protobuf.Value` in JSON: the JSON value that it holds; null where
/// it holds none. A number that is not finite is no JSON value.
pub open spec fn dynamic_json(m: MessageModel, depth: nat) -> Result<JsonModel, Seq<char>>
    decreases depth, 7nat, 0nat,
{
    if field_get(m.fields, 1) is Some {
        Ok(JsonModel::Null)
    } else if field_get(m.fields, 2) matches Some(ValueModel::F64(n)) {
        let n = field_get(m.fields, 2)->Some_0->F64_0;
        if double_is_nan(n) || double_is_infinite(n) {
            Err("google.protobuf.Value.number_value cannot represent NaN or Infinity in JSON"@)
        } else {
            Ok(JsonModel::Double(n))
        }
    } else if field_get(m.fields, 3) matches Some(ValueModel::Text(_)) {
        Ok(JsonModel::Text(field_get(m.fields, 3)->Some_0->Text_0))
    } else if field_get(m.fields, 4) matches Some(ValueModel::Bool(_)) {
        Ok(JsonModel::Bool(field_get(m.fields, 4)->Some_0->Bool_0))
    } else if field_get(m.fields, 5) matches Some(ValueModel::Message(_)) {
        nested_json(field_get(m.fields, 5)->Some_0->Message_0, depth)
    } else if field_get(m.fields, 6) matches Some(ValueModel::Message(_)) {
        nested_json(field_get(m.fields, 6)->Some_0->Message_0, depth)
    } else {
        Ok(JsonModel::Null)
    }
}

/// What is said of a `type_url` that the pool does not know.
pub open spec fn unknown_url(url: Seq<char>) -> Seq<char> {
    "Any type_url "@ + quoted_text(url) + " not registered in the descriptor pool"@
}

/// An `Any` in JSON: its `type_url` beside the fields of its payload, or beside
/// the payload under `"value"` where that has a form of its own.
pub open spec fn any_json(m: MessageModel, depth: nat) -> Result<JsonModel, Seq<char>>
    decreases depth, 7nat, 0nat,
{
    let url = text_at(m, 1);
    let bytes = bytes_at(m, 2);
    if url.len() == 0 && bytes.len() == 0 {
        Ok(JsonModel::Object(Seq::empty()))
    } else {
        match any_type(m.pool, url) {
            None => Err(unknown_url(url)),
            Some(i) => if depth == 0 {
                Err(too_deep())
            } else {
                match decoded(m.pool, i, bytes, depth_options((depth - 1) as u32)) {
                    Err(DecodeError::RecursionLimitExceeded) => Err(too_deep()),
                    Err(e) => Err("Any inner decode failed: "@ + decode_error_text(e)),
                    Ok(x) => payload_json(url, x, (depth - 1) as nat),
                }
            },
        }
    }
}

/// An `Any` with the given payload in JSON.
pub open spec fn payload_json(url: Seq<char>, x: MessageModel, depth: nat) -> Result<
    JsonModel,
    Seq<char>,
>
    decreases depth, 10nat, 0nat,
{
    let head = ("@type"@, JsonModel::Text(url));
    match wkt_of(full_name(x)) {
        Some(w) => if !(w is Empty) {
            match message_json(x, depth) {
                Ok(j) => Ok(JsonModel::Object(seq![head, ("value"@, j)])),
                Err(e) => Err(e),
            }
        } else {
            spread_json(head, x, depth)
        },
        None => spread_json(head, x, depth),
    }
}

/// The fields of `x` behind the member `head`.
pub open spec fn spread_json(head: (Seq<char>, JsonModel), x: MessageModel, depth: nat) -> Result<
    JsonModel,
    Seq<char>,
>
    decreases depth, 9nat, 0nat,
{
    match members_json(x, 0, depth) {
        Ok(o) => Ok(JsonModel::Object(seq![head] + o)),
        Err(e) => Err(e),
    }
}

// ── Writing ─────────────────────────────────────────────────────────────────

fn serialize_enum(pool: &DescriptorPool, e: EnumIndex, n: i32) -> (r: Json)
    requires
        e.0 < pool.enum_seq().len(),
    ensures
        r@ == enum_json(*pool, e, n),
{
    let ed = pool.enumeration(e);
    if same_text(ed.full_name.as_str(), "google.protobuf.NullValue") {
        return Json::Null;
    }
    let mut i: usize = 0;
    while i < ed.values.len()
        invariant
            i <= ed.values@.len(),
            number_at(ed.values@, n, 0) == number_at(ed.values@, n, i as nat),
            *ed == pool.enum_seq()[e.0 as int],
            ed.full_name@ != "google.protobuf.NullValue"@,
        decreases ed.values@.len() - i,
    {
        if ed.values[i].number == n {
            return Json::Text(ed.values[i].name.clone());
        }
        i = i + 1;
    }
    Json::Int(n as i64)
}

impl DynamicMessage {
    fn read_i64(&self, number: u32) -> (r: i64)
        ensures
            r == i64_at(self@, number),
    {
        match self.field_by_number(number) {
            Some(Value::I64(n)) => *n,
            _ => 0,
        }
    }

    fn read_i32(&self, number: u32) -> (r: i32)
        ensures
            r == i32_at(self@, number),
    {
        match self.field_by_number(number) {
            Some(Value::I32(n)) => *n,
            _ => 0,
        }
    }

    fn read_string_list(&self, number: u32) -> (r: Vec<&str>)
        ensures
            texts_view(r@) == texts_at(self@, number),
    {
        let mut out: Vec<&str> = Vec::new();
        assert(texts_view(out@) =~= Seq::<Seq<char>>::empty());
        if let Some(Value::List(items)) = self.field_by_number(number) {
            let ghost l = items_view(items@);
            let mut i: usize = 0;
            assert(l.take(0) =~= Seq::<ValueModel>::empty());
            while i < items.len()
                invariant
                    l == items_view(items@),
                    i <= items@.len(),
                    texts_view(out@) == texts_of(l.take(i as int)),
                decreases items@.len() - i,
            {
                let ghost was = texts_view(out@);
                proof {
                    assert(l.take(i + 1).drop_last() =~= l.take(i as int));
                    assert(l.take(i + 1).last() == items@[i as int]@);
                }
                if let Value::String(s) = &items[i] {
                    out.push(s.as_str());
                    assert(texts_view(out@) =~= was.push(s@));
                }
                i = i + 1;
            }
            assert(l.take(i as int) =~= l);
        }
        out
    }

    /// Writes the message as JSON.
    pub fn to_json(&self) -> (r: Result<Json, JsonError>)
        ensures
            writes(r, message_json(self@, RECURSION_LIMIT as nat)),
    {
        serialize_message(self, RECURSION_LIMIT)
    }
}

/// Writes a message inside another, which has `depth` levels left for it.
fn serialize_nested(msg: &DynamicMessage, depth: u32) -> (r: Result<Json, JsonError>)
    ensures
        writes(r, nested_json(msg@, depth as nat)),
    decreases depth, 0nat, 0nat,
{
    if depth == 0 {
        return Err(nesting_too_deep());
    }
    serialize_message(msg, depth - 1)
}

/// Writes a message; `depth` levels are left for the messages in it.
pub fn serialize_message(msg: &DynamicMessage, depth: u32) -> (r: Result<Json, JsonError>)
    ensures
        writes(r, message_json(msg@, depth as nat)),
    decreases depth, 9nat, 0nat,
{
    match WktKind::from_full_name(msg.message_descriptor().full_name.as_str()) {
        Some(w) => w.serialize_message(msg, depth),
        None => {
            let mut members: Vec<(String, Json)> = Vec::new();
            assert(object_view(members@) =~= Seq::<(Seq<char>, JsonModel)>::empty());
            match serialize_members(msg, &mut members, depth) {
                Ok(()) => {
                    assert(Seq::<(Seq<char>, JsonModel)>::empty() + members_json(
                        msg@,
                        0,
                        depth as nat,
                    )->Ok_0 =~= members_json(msg@, 0, depth as nat)->Ok_0);
                    Ok(Json::Object(members))
                },
                Err(e) => Err(e),
            }
        },
    }
}

/// Writes the fields of a plain message behind other members.
fn serialize_members(
    msg: &DynamicMessage,
    members: &mut Vec<(String, Json)>,
    depth: u32,
) -> (r: Result<(), JsonError>)
    ensures
        match members_json(msg@, 0, depth as nat) {
            Ok(o) => r is Ok && object_view(final(members)@) == object_view(old(members)@) + o,
            Err(e) => r is Err && r->Err_0@ == e,
        },
    decreases depth, 6nat, 0nat,
{
    let md = msg.message_descriptor();
    let ghost m = msg@;
    let ghost goal = members_json(m, 0, depth as nat);
    let ghost base = object_view(members@);
    let mut i: usize = 0;
    proof {
        if goal is Ok {
            assert(base + goal->Ok_0 == object_view(members@) + goal->Ok_0);
        }
    }
    while i < md.fields.len()
        invariant
            m == msg@,
            *md == m.pool.message_seq()[m.index.0 as int],
            forall|j: int|
                0 <= j < md.fields@.len() ==> field_linked(m.pool, #[trigger] md.fields@[j]),
            i <= md.fields@.len(),
            match members_json(m, i as nat, depth as nat) {
                Ok(rest) => goal is Ok && base + goal->Ok_0 == object_view(members@) + rest,
                Err(e) => goal == Err::<Seq<(Seq<char>, JsonModel)>, Seq<char>>(e),
            },
            goal == members_json(msg@, 0, depth as nat),
            base == object_view(old(members)@),
        decreases md.fields@.len() - i,
    {
        let fd = &md.fields[i];
        if msg.has_value(fd) {
            let value = match msg.field_by_number(fd.number) {
                Some(v) => v,
                None => {
                    return Ok(());
                },
            };
            match serialize_value(msg.pool(), fd, value, depth) {
                Err(e) => return Err(e),
                Ok(j) => {
                    let ghost was = object_view(members@);
                    let ghost entry = (fd.json_name@, j@);
                    members.push((fd.json_name.clone(), j));
                    proof {
                        assert(object_view(members@) =~= was.push(entry));
                        if let Ok(rest) = members_json(m, (i + 1) as nat, depth as nat) {
                            assert(was + (seq![entry] + rest) =~= object_view(members@) + rest);
                        }
                    }
                },
            }
        }
        i = i + 1;
    }
    assert(object_view(members@) + Seq::<(Seq<char>, JsonModel)>::empty() =~= object_view(
        members@,
    ));
    Ok(())
}

/// Writes the value of a field.
fn serialize_value(
    pool: &Arc<DescriptorPool>,
    fd: &FieldDescriptor,
    value: &Value,
    depth: u32,
) -> (r: Result<Json, JsonError>)
    requires
        field_linked(**pool, *fd),
    ensures
        writes(r, value_json(**pool, *fd, value@, depth as nat)),
    decreases depth, 4nat, 0nat,
{
    if !value_matches_field_shape(fd.kind, value, pool) {
        return Ok(Json::Null);
    }
    match (fd.kind, value) {
        (FieldKind::Singular(k), v) => serialize_element(pool, k, v, depth),
        (FieldKind::List(k), Value::List(items)) => {
            let mut out: Vec<Json> = Vec::new();
            let ghost l = items_view(items@);
            let ghost goal = items_json(pool_of(pool), k, l, 0, depth as nat);
            let mut i: usize = 0;
            proof {
                if goal is Ok {
                    assert(array_view(out@) + goal->Ok_0 =~= goal->Ok_0);
                }
            }
            while i < items.len()
                invariant
                    singular_linked(**pool, k),
                    l == items_view(items@),
                    i <= items@.len(),
                    match items_json(**pool, k, l, i as nat, depth as nat) {
                        Ok(rest) => goal is Ok && goal->Ok_0 == array_view(out@) + rest,
                        Err(e) => goal == Err::<Seq<JsonModel>, Seq<char>>(e),
                    },
                    goal == items_json(**pool, k, l, 0, depth as nat),
                    value_fits(fd.kind, value@, **pool),
                    fd.kind == FieldKind::List(k),
                    value@ == ValueModel::List(l),
                decreases items@.len() - i,
            {
                assert(l[i as int] == items@[i as int]@);
                match serialize_element(pool, k, &items[i], depth) {
                    Err(e) => return Err(e),
                    Ok(j) => {
                        let ghost was = array_view(out@);
                        let ghost j0 = j@;
                        out.push(j);
                        proof {
                            assert(array_view(out@) =~= was.push(j0));
                            if let Ok(rest) = items_json(
                                pool_of(pool),
                                k,
                                l,
                                (i + 1) as nat,
                                depth as nat,
                            ) {
                                assert(was + (seq![j0] + rest) =~= array_view(out@) + rest);
                            }
                        }
                    },
                }
                i = i + 1;
            }
            assert(array_view(out@) + Seq::<JsonModel>::empty() =~= array_view(out@));
            Ok(Json::Array(out))
        },
        (FieldKind::Mapping { key, value: vk }, Value::Mapping(map)) => {
            let mut out: Vec<(String, Json)> = Vec::new();
            let ghost goal = entries_json(pool_of(pool), vk, map@, 0, depth as nat);
            let mut i: usize = 0;
            proof {
                if goal is Ok {
                    assert(object_view(out@) + goal->Ok_0 =~= goal->Ok_0);
                }
            }
            while i < map.len()
                invariant
                    singular_linked(**pool, vk),
                    i <= map@.len(),
                    match entries_json(**pool, vk, map@, i as nat, depth as nat) {
                        Ok(rest) => goal is Ok && goal->Ok_0 == object_view(out@) + rest,
                        Err(e) => goal == Err::<Seq<(Seq<char>, JsonModel)>, Seq<char>>(e),
                    },
                    goal == entries_json(**pool, vk, map@, 0, depth as nat),
                    value_fits(fd.kind, value@, **pool),
                    fd.kind == (FieldKind::Mapping { key, value: vk }),
                    value@ == ValueModel::Mapping(map@),
                decreases map@.len() - i,
            {
                let (k, v) = map.entry(i);
                match serialize_element(pool, vk, v, depth) {
                    Err(e) => return Err(e),
                    Ok(j) => {
                        let ghost was = object_view(out@);
                        let ghost entry = (key_text(k@), j@);
                        out.push((serialize_key(k), j));
                        proof {
                            assert(object_view(out@) =~= was.push(entry));
                            if let Ok(rest) = entries_json(
                                pool_of(pool),
                                vk,
                                map@,
                                (i + 1) as nat,
                                depth as nat,
                            ) {
                                assert(was + (seq![entry] + rest) =~= object_view(out@) + rest);
                            }
                        }
                    },
                }
                i = i + 1;
            }
            assert(object_view(out@) + Seq::<(Seq<char>, JsonModel)>::empty() =~= object_view(
                out@,
            ));
            Ok(Json::Object(out))
        },
        _ => Ok(Json::Null),
    }
}

/// Writes an element.
fn serialize_element(pool: &DescriptorPool, kind: SingularKind, value: &Value, depth: u32) -> (r:
    Result<Json, JsonError>)
    requires
        singular_linked(*pool, kind),
    ensures
        writes(r, element_json(*pool, kind, value@, depth as nat)),
    decreases depth, 1nat, 0nat,
{
    match (kind, value) {
        (SingularKind::Scalar(s), v) => Ok(serialize_scalar(s, v)),
        (SingularKind::Enum(e), Value::EnumNumber(n)) => Ok(serialize_enum(pool, e, *n)),
        (SingularKind::Message(_), Value::Message(m)) => serialize_nested(m, depth),
        _ => Ok(Json::Null),
    }
}

impl WktKind {
    /// Writes a message of this well-known type; `depth` levels are left for
    /// the messages in it.
    ///
    /// The text of a timestamp, a duration or a mask reads back as what was
    /// written.
    pub fn serialize_message(self, msg: &DynamicMessage, depth: u32) -> (r: Result<
        Json,
        JsonError,
    >)
        ensures
            writes(r, wkt_json(self, msg@, depth as nat)),
            self is Timestamp && r is Ok ==> (parsed_timestamp(r->Ok_0@->Text_0) matches Ok(p)
                && p == (i64_at(msg@, 1), i32_at(msg@, 2))),
            self is Duration && r is Ok ==> (parsed_duration(r->Ok_0@->Text_0) matches Ok(p)
                && p == (i64_at(msg@, 1), i32_at(msg@, 2))),
            self is FieldMask && r is Ok ==> (mask_paths(r->Ok_0@->Text_0) matches Ok(p)
                && p == texts_at(msg@, 1)),
        decreases depth, 8nat, 0nat,
    {
        match self {
            WktKind::Timestamp => match fmt_timestamp(msg.read_i64(1), msg.read_i32(2)) {
                Ok(t) => Ok(Json::Text(t)),
                Err(e) => Err(JsonError::new(e)),
            },
            WktKind::Duration => match fmt_duration(msg.read_i64(1), msg.read_i32(2)) {
                Ok(t) => Ok(Json::Text(t)),
                Err(e) => Err(JsonError::new(e)),
            },
            WktKind::FieldMask => match fmt_field_mask(&msg.read_string_list(1)) {
                Ok(t) => Ok(Json::Text(t)),
                Err(e) => Err(JsonError::new(e)),
            },
            WktKind::Empty => {
                let none: Vec<(String, Json)> = Vec::new();
                assert(object_view(none@) =~= Seq::<(Seq<char>, JsonModel)>::empty());
                Ok(Json::Object(none))
            },
            WktKind::Wrapper(s) => match msg.field_by_number(1) {
                Some(v) => Ok(serialize_scalar(s, v)),
                None => Ok(serialize_scalar(s, &default_scalar_value(s))),
            },
            WktKind::Struct => match msg.field_by_number(1) {
                Some(Value::Mapping(map)) => serialize_struct(map, depth),
                _ => {
                    let none: Vec<(String, Json)> = Vec::new();
                    assert(object_view(none@) =~= Seq::<(Seq<char>, JsonModel)>::empty());
                    Ok(Json::Object(none))
                },
            },
            WktKind::ListValue => match msg.field_by_number(1) {
                Some(Value::List(items)) => serialize_list(items, depth),
                _ => {
                    let none: Vec<Json> = Vec::new();
                    assert(array_view(none@) =~= Seq::<JsonModel>::empty());
                    Ok(Json::Array(none))
                },
            },
            WktKind::JsonValue => serialize_json_value(msg, depth),
            WktKind::Any => serialize_any(msg, depth),
        }
    }
}

/// Writes the entries of a `Struct`.
fn serialize_struct(map: &MapValue, depth: u32) -> (r: Result<Json, JsonError>)
    ensures
        match struct_json(map@, 0, depth as nat) {
            Ok(o) => r is Ok && r->Ok_0@ == JsonModel::Object(o),
            Err(e) => r is Err && r->Err_0@ == e,
        },
    decreases depth, 3nat, 0nat,
{
    let mut out: Vec<(String, Json)> = Vec::new();
    let ghost goal = struct_json(map@, 0, depth as nat);
    let mut i: usize = 0;
    proof {
        if goal is Ok {
            assert(object_view(out@) + goal->Ok_0 =~= goal->Ok_0);
        }
    }
    while i < map.len()
        invariant
            i <= map@.len(),
            match struct_json(map@, i as nat, depth as nat) {
                Ok(rest) => goal is Ok && goal->Ok_0 == object_view(out@) + rest,
                Err(e) => goal == Err::<Seq<(Seq<char>, JsonModel)>, Seq<char>>(e),
            },
            goal == struct_json(map@, 0, depth as nat),
        decreases map@.len() - i,
    {
        let (k, v) = map.entry(i);
        let key = match k {
            MapKey::String(s) => s.clone(),
            _ => return Err(JsonError::new("Struct map key must be string")),
        };
        let inner = match v {
            Value::Message(m) => m,
            _ => return Err(JsonError::new("Struct value must be message")),
        };
        match serialize_nested(inner, depth) {
            Err(e) => return Err(e),
            Ok(j) => {
                let ghost was = object_view(out@);
                let ghost entry = (key@, j@);
                out.push((key, j));
                proof {
                    assert(object_view(out@) =~= was.push(entry));
                    if let Ok(rest) = struct_json(map@, (i + 1) as nat, depth as nat) {
                        assert(was + (seq![entry] + rest) =~= object_view(out@) + rest);
                    }
                }
            },
        }
        i = i + 1;
    }
    assert(object_view(out@) + Seq::<(Seq<char>, JsonModel)>::empty() =~= object_view(out@));
    Ok(Json::Object(out))
}

/// Writes the elements of a `ListValue`.
fn serialize_list(items: &Vec<Value>, depth: u32) -> (r: Result<Json, JsonError>)
    ensures
        match list_json(items_view(items@), 0, depth as nat) {
            Ok(a) => r is Ok && r->Ok_0@ == JsonModel::Array(a),
            Err(e) => r is Err && r->Err_0@ == e,
        },
    decreases depth, 3nat, 0nat,
{
    let mut out: Vec<Json> = Vec::new();
    let ghost l = items_view(items@);
    let ghost goal = list_json(l, 0, depth as nat);
    let mut i: usize = 0;
    proof {
        if goal is Ok {
            assert(array_view(out@) + goal->Ok_0 =~= goal->Ok_0);
        }
    }
    while i < items.len()
        invariant
            l == items_view(items@),
            i <= items@.len(),
            match list_json(l, i as nat, depth as nat) {
                Ok(rest) => goal is Ok && goal->Ok_0 == array_view(out@) + rest,
                Err(e) => goal == Err::<Seq<JsonModel>, Seq<char>>(e),
            },
            goal == list_json(l, 0, depth as nat),
        decreases items@.len() - i,
    {
        assert(l[i as int] == items@[i as int]@);
        let inner = match &items[i] {
            Value::Message(m) => m,
            _ => return Err(JsonError::new("ListValue elem must be message")),
        };
        match serialize_nested(inner, depth) {
            Err(e) => return Err(e),
            Ok(j) => {
                let ghost was = array_view(out@);
                let ghost j0 = j@;
                out.push(j);
                proof {
                    assert(array_view(out@) =~= was.push(j0));
                    if let Ok(rest) = list_json(l, (i + 1) as nat, depth as nat) {
                        assert(was + (seq![j0] + rest) =~= array_view(out@) + rest);
                    }
                }
            },
        }
        i = i + 1;
    }
    assert(array_view(out@) + Seq::<JsonModel>::empty() =~= array_view(out@));
    Ok(Json::Array(out))
}

/// Writes a `google.protobuf.Value`.
fn serialize_json_value(msg: &DynamicMessage, depth: u32) -> (r: Result<Json, JsonError>)
    ensures
        writes(r, dynamic_json(msg@, depth as nat)),
    decreases depth, 7nat, 0nat,
{
    if msg.field_by_number(1).is_some() {
        return Ok(Json::Null);
    }
    if let Some(Value::F64(n)) = msg.field_by_number(2) {
        if (*n / 0x10_0000_0000_0000) % 2048 == 2047 {
            return Err(
                JsonError::new(
                    "google.protobuf.Value.number_value cannot represent NaN or Infinity in JSON",
                ),
            );
        }
        return Ok(Json::Double(*n));
    }
    if let Some(Value::String(t)) = msg.field_by_number(3) {
        return Ok(Json::Text(t.clone()));
    }
    if let Some(Value::Bool(b)) = msg.field_by_number(4) {
        return Ok(Json::Bool(*b));
    }
    if let Some(Value::Message(inner)) = msg.field_by_number(5) {
        return serialize_nested(inner, depth);
    }
    if let Some(Value::Message(inner)) = msg.field_by_number(6) {
        return serialize_nested(inner, depth);
    }
    Ok(Json::Null)
}

/// Writes a `google.protobuf.Any`.
///
/// The payload costs one level, and its bytes are decoded with the levels that
/// are left.
fn serialize_any(msg: &DynamicMessage, depth: u32) -> (r: Result<Json, JsonError>)
    ensures
        writes(r, any_json(msg@, depth as nat)),
    decreases depth, 7nat, 0nat,
{
    let type_url = msg.read_text(1);
    let value_bytes = msg.read_bytes(2);
    let pool = msg.pool();
    if type_url.is_empty() && value_bytes.len() == 0 {
        let none: Vec<(String, Json)> = Vec::new();
        assert(object_view(none@) =~= Seq::<(Seq<char>, JsonModel)>::empty());
        return Ok(Json::Object(none));
    }
    let index = match resolve_any_type(pool, type_url) {
        Some(i) => i,
        None => {
            let text = join3(
                "Any type_url ",
                quoted(type_url).as_str(),
                " not registered in the descriptor pool",
            );
            return Err(JsonError { text });
        },
    };
    if depth == 0 {
        return Err(nesting_too_deep());
    }
    let inner_depth: u32 = depth - 1;
    let inner = match DynamicMessage::decode_at_depth(
        share_pool(pool),
        index,
        value_bytes,
        inner_depth,
    ) {
        Ok(x) => x,
        Err(DecodeError::RecursionLimitExceeded) => return Err(nesting_too_deep()),
        Err(e) => {
            let text = join2("Any inner decode failed: ", e.text().as_str());
            return Err(JsonError { text });
        },
    };
    serialize_any_payload(type_url, &inner, inner_depth)
}

/// Writes an `Any` with the payload that its bytes were decoded to.
pub fn serialize_any_payload(type_url: &str, inner: &DynamicMessage, depth: u32) -> (r: Result<
    Json,
    JsonError,
>)
    ensures
        writes(r, payload_json(type_url@, inner@, depth as nat)),
    decreases depth, 10nat, 0nat,
{
    let ghost head = ("@type"@, JsonModel::Text(type_url@));
    let mut members: Vec<(String, Json)> = Vec::new();
    members.push(("@type".to_owned(), Json::Text(type_url.to_owned())));
    assert(object_view(members@) =~= seq![head]);
    if let Some(w) = WktKind::from_full_name(inner.message_descriptor().full_name.as_str()) {
        if w.uses_any_value_wrapping() {
            match serialize_message(inner, depth) {
                Ok(j) => {
                    let ghost j0 = j@;
                    members.push(("value".to_owned(), j));
                    assert(object_view(members@) =~= seq![head, ("value"@, j0)]);
                    return Ok(Json::Object(members));
                },
                Err(e) => return Err(e),
            }
        }
    }
    match serialize_members(inner, &mut members, depth) {
        Ok(()) => Ok(Json::Object(members)),
        Err(e) => Err(e),
    }
}

} // verus!
