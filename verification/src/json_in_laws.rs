//! What JSON is read as.
use vstd::prelude::*;
use vstd::utf8::encode_utf8;
use crate::any::{any_type, bytes_at, text_at};
use crate::buffered::{buffered, buffered_items, buffered_members, member_at, member_put};
use crate::decode_laws::{holds_instead, last_under, law_last_entry, lemma_held_instead};
use crate::descriptor::{
    index_of, pool_linked, DescriptorPool, EnumIndex, EnumValueDescriptor, FieldDescriptor,
    FieldKind, MessageIndex, ScalarType, SingularKind,
};
use crate::encode::message_bytes;
use crate::from_json::{
    any_from, element_from, entries_from, enum_from, field_from, field_named, items_from, key_from,
    list_items, message_from, name_at, plain_from, reads_element, reads_message, struct_entries,
    takes_null,
};
use crate::json::{
    input_scalar, text_bytes, text_double, text_float, text_int64, text_uint64, InputModel,
    JsonError, JsonInput, JsonInteger, JsonNumber,
};
use crate::map::{
    bytes_before, entries_sorted, lemma_key_order_total, lemma_key_order_transitive,
    normal_entries,
};
use crate::scalar::is_default;
use crate::shape::{key_fits, scalar_fits};
use crate::text::quoted_text;
use crate::value::{
    empty_message, field_get, field_insert, fields_sorted, with_field, DynamicMessage, KeyModel,
    MessageModel, Value, ValueModel,
};
use crate::wkt::{mask_paths, parsed_duration, parsed_timestamp, wkt_of, WktKind};

verus! {

// ── Scalars ─────────────────────────────────────────────────────────────────

/// The whole number that a JSON number is, if it is one.
pub open spec fn whole(n: JsonNumber) -> Option<int> {
    match n.integer {
        Some(JsonInteger::Signed(x)) => Some(x as int),
        Some(JsonInteger::Unsigned(x)) => Some(x as int),
        None => None,
    }
}

/// `v` is the whole number `x` as a value of the scalar type.
pub open spec fn is_whole(s: ScalarType, v: ValueModel, x: int) -> bool {
    match s {
        ScalarType::Int32 | ScalarType::Sint32 | ScalarType::Sfixed32 => (
        v matches ValueModel::I32(y) && y == x),
        ScalarType::Int64 | ScalarType::Sint64 | ScalarType::Sfixed64 => (
        v matches ValueModel::I64(y) && y == x),
        ScalarType::Uint32 | ScalarType::Fixed32 => (v matches ValueModel::U32(y) && y == x),
        ScalarType::Uint64 | ScalarType::Fixed64 => (v matches ValueModel::U64(y) && y == x),
        _ => false,
    }
}

/// The whole number `x` is one of the scalar type.
pub open spec fn in_range(s: ScalarType, x: int) -> bool {
    match s {
        ScalarType::Int32 | ScalarType::Sint32 | ScalarType::Sfixed32 => -0x8000_0000 <= x
            < 0x8000_0000,
        ScalarType::Int64 | ScalarType::Sint64 | ScalarType::Sfixed64 => -0x8000_0000_0000_0000
            <= x < 0x8000_0000_0000_0000,
        ScalarType::Uint32 | ScalarType::Fixed32 => 0 <= x < 0x1_0000_0000,
        ScalarType::Uint64 | ScalarType::Fixed64 => 0 <= x < 0x1_0000_0000_0000_0000,
        _ => false,
    }
}

/// The scalar type is one of whole numbers.
pub open spec fn is_integer(s: ScalarType) -> bool {
    !(s is Double || s is Float || s is Bool || s is String || s is Bytes)
}

/// The whole number that a text spells, for a scalar type.
pub open spec fn spelled(s: ScalarType, t: Seq<char>) -> Option<int> {
    match s {
        ScalarType::Uint32 | ScalarType::Fixed32 | ScalarType::Uint64 | ScalarType::Fixed64 =>
        match text_uint64(t) {
            Some(x) => Some(x as int),
            None => None,
        },
        _ => match text_int64(t) {
            Some(x) => Some(x as int),
            None => None,
        },
    }
}

/// Null is read as the default of every scalar type, and what is read is a value
/// of the type. A number or a text is read as the whole number that it is where
/// the type has that number, and refused where not.
pub proof fn law_scalar_from(s: ScalarType, j: InputModel)
    ensures
        input_scalar(s, j) matches Ok(v) ==> scalar_fits(s, v),
        j is Null ==> (input_scalar(s, j) matches Ok(v) && is_default(v)),
        is_integer(s) ==> match j {
            InputModel::Null => true,
            InputModel::Number(n) => match whole(n) {
                Some(x) => if in_range(s, x) {
                    input_scalar(s, j) matches Ok(v) && is_whole(s, v, x)
                } else {
                    input_scalar(s, j) is Err
                },
                None => input_scalar(s, j) is Err,
            },
            InputModel::Text(t) => match spelled(s, t) {
                Some(x) => if in_range(s, x) {
                    input_scalar(s, j) matches Ok(v) && is_whole(s, v, x)
                } else {
                    input_scalar(s, j) is Err
                },
                None => input_scalar(s, j) is Err,
            },
            _ => input_scalar(s, j) is Err,
        },
{
}

/// A truth value, a text and bytes are read from a truth value, a text and a text
/// of base64; floating-point numbers from numbers and from the texts that spell
/// one. Anything else but null is refused.
pub proof fn law_other_scalar_from(j: InputModel)
    ensures
        !(j is Null) ==> match j {
            InputModel::Bool(b) => input_scalar(ScalarType::Bool, j) == Ok::<
                ValueModel,
                Seq<char>,
            >(ValueModel::Bool(b)),
            _ => input_scalar(ScalarType::Bool, j) is Err,
        },
        !(j is Null) ==> match j {
            InputModel::Text(t) => input_scalar(ScalarType::String, j) == Ok::<
                ValueModel,
                Seq<char>,
            >(ValueModel::Text(t)),
            _ => input_scalar(ScalarType::String, j) is Err,
        },
        !(j is Null) ==> match j {
            InputModel::Text(t) => match text_bytes(t) {
                Some(b) => input_scalar(ScalarType::Bytes, j) == Ok::<ValueModel, Seq<char>>(
                    ValueModel::Bytes(b),
                ),
                None => input_scalar(ScalarType::Bytes, j) is Err,
            },
            _ => input_scalar(ScalarType::Bytes, j) is Err,
        },
        !(j is Null) ==> match j {
            InputModel::Number(n) => input_scalar(ScalarType::Double, j) == Ok::<
                ValueModel,
                Seq<char>,
            >(ValueModel::F64(n.double)),
            InputModel::Text(t) => match text_double(t) {
                Some(x) => input_scalar(ScalarType::Double, j) == Ok::<ValueModel, Seq<char>>(
                    ValueModel::F64(
                        if x % 0x8000_0000_0000_0000 > 0x7ff0_0000_0000_0000 {
                            0x7ff8_0000_0000_0000
                        } else {
                            x
                        },
                    ),
                ),
                None => input_scalar(ScalarType::Double, j) is Err,
            },
            _ => input_scalar(ScalarType::Double, j) is Err,
        },
        !(j is Null) ==> match j {
            InputModel::Number(n) => match n.single {
                Some(x) => input_scalar(ScalarType::Float, j) == Ok::<ValueModel, Seq<char>>(
                    ValueModel::F32(x),
                ),
                None => input_scalar(ScalarType::Float, j) is Err,
            },
            InputModel::Text(t) => match text_float(t) {
                Some(x) => input_scalar(ScalarType::Float, j) == Ok::<ValueModel, Seq<char>>(
                    ValueModel::F32(
                        if x % 0x8000_0000 > 0x7f80_0000 {
                            0x7fc0_0000
                        } else {
                            x
                        },
                    ),
                ),
                None => input_scalar(ScalarType::Float, j) is Err,
            },
            _ => input_scalar(ScalarType::Float, j) is Err,
        },
{
}

/// The position that a name is found at is the first with that name.
pub proof fn lemma_name_at(values: Seq<EnumValueDescriptor>, name: Seq<char>, i: nat)
    ensures
        match name_at(values, name, i) {
            Some(k) => i <= k < values.len() && values[k as int].name@ == name && forall|j: int|
                i <= j < k ==> (#[trigger] values[j]).name@ != name,
            None => forall|j: int| i <= j < values.len() ==> (#[trigger] values[j]).name@ != name,
        },
    decreases values.len() - i,
{
    if i < values.len() && values[i as int].name@ != name {
        lemma_name_at(values, name, i + 1);
    }
}

/// A text is read as the number of the first value that the enum declares under
/// that name, and refused where it declares none. A whole number of 32 bits is
/// read as itself, declared or not. Null is zero for `NullValue`, and refused by
/// the others.
pub proof fn law_enum_from(pool: DescriptorPool, e: EnumIndex, j: InputModel)
    ensures
        ({
            let ed = pool.enum_seq()[e.0 as int];
            let r = enum_from(pool, e, j);
            match j {
                InputModel::Text(t) => {
                    &&& r matches Ok(v) ==> exists|i: int|
                        0 <= i < ed.values@.len() && (#[trigger] ed.values@[i]).name@ == t && v
                            == ValueModel::EnumNumber(ed.values@[i].number) && forall|k: int|
                            0 <= k < i ==> (#[trigger] ed.values@[k]).name@ != t
                    &&& r is Ok <==> exists|i: int|
                        0 <= i < ed.values@.len() && (#[trigger] ed.values@[i]).name@ == t
                },
                InputModel::Number(n) => match whole(n) {
                    Some(x) => if -0x8000_0000 <= x < 0x8000_0000 {
                        r matches Ok(v) && v matches ValueModel::EnumNumber(y) && y == x
                    } else {
                        r is Err
                    },
                    None => r is Err,
                },
                InputModel::Null => if ed.full_name@ == "google.protobuf.NullValue"@ {
                    r == Ok::<ValueModel, Seq<char>>(ValueModel::EnumNumber(0))
                } else {
                    r is Err
                },
                _ => r is Err,
            }
        }),
{
    let ed = pool.enum_seq()[e.0 as int];
    if let InputModel::Text(t) = j {
        lemma_name_at(ed.values@, t, 0);
        if let Some(k) = name_at(ed.values@, t, 0) {
            assert(ed.values@[k as int].name@ == t);
        }
    }
}

/// A key is read as the truth value that it names, as the whole number that it
/// spells, or as itself.
pub proof fn law_key_from(s: ScalarType, t: Seq<char>)
    ensures
        s is Bool ==> {
            &&& key_from(s, t) == Ok::<KeyModel, Seq<char>>(KeyModel::Bool(true)) <==> t == "true"@
            &&& key_from(s, t) == Ok::<KeyModel, Seq<char>>(KeyModel::Bool(false)) <==> t
                == "false"@
            &&& t != "true"@ && t != "false"@ ==> key_from(s, t) is Err
        },
        s is String ==> key_from(s, t) == Ok::<KeyModel, Seq<char>>(KeyModel::Text(t)),
        is_integer(s) ==> match spelled(s, t) {
            Some(x) => if in_range(s, x) {
                key_from(s, t) matches Ok(k) && key_fits(s, k) && match k {
                    KeyModel::I32(y) => y == x,
                    KeyModel::I64(y) => y == x,
                    KeyModel::U32(y) => y == x,
                    KeyModel::U64(y) => y == x,
                    _ => false,
                }
            } else {
                key_from(s, t) is Err
            },
            None => key_from(s, t) is Err,
        },
{
    reveal_strlit("true");
    reveal_strlit("false");
    assert("true"@[0] == 't' && "false"@[0] == 'f');
}

// ── Messages ────────────────────────────────────────────────────────────────

proof fn lemma_field_named(fields: Seq<FieldDescriptor>, key: Seq<char>, i: nat)
    ensures
        match field_named(fields, key, i) {
            Some(k) => i <= k < fields.len() && is_named(fields[k as int], key) && forall|j: int|
                i <= j < k ==> !is_named(#[trigger] fields[j], key),
            None => forall|j: int| i <= j < fields.len() ==> !is_named(#[trigger] fields[j], key),
        },
    decreases fields.len() - i,
{
    if i < fields.len() && !is_named(fields[i as int], key) {
        lemma_field_named(fields, key, i + 1);
    }
}

/// The key is the name of the field in JSON, or the one that it is declared with.
pub open spec fn is_named(fd: FieldDescriptor, key: Seq<char>) -> bool {
    key == fd.json_name@ || key == fd.name@
}

/// A member is that of the first field with its key as its name in JSON or its
/// declared name.
pub proof fn law_field_named(fields: Seq<FieldDescriptor>, key: Seq<char>)
    ensures
        match field_named(fields, key, 0) {
            Some(k) => k < fields.len() && is_named(fields[k as int], key) && forall|j: int|
                0 <= j < k ==> !is_named(#[trigger] fields[j], key),
            None => forall|j: int| 0 <= j < fields.len() ==> !is_named(#[trigger] fields[j], key),
        },
{
    lemma_field_named(fields, key, 0);
}

proof fn lemma_read_on(
    m: MessageModel,
    o: Seq<(Seq<char>, InputModel)>,
    x: (Seq<char>, InputModel),
    i: nat,
    lenient: bool,
)
    requires
        i <= o.len(),
    ensures
        plain_from(m, o.push(x), i, lenient) == match plain_from(m, o, i, lenient) {
            Ok(a) => plain_from(a, seq![x], 0, lenient),
            Err(e) => Err(e),
        },
    decreases o.len() - i,
{
    let p = o.push(x);
    if i == o.len() {
        reveal_with_fuel(plain_from, 3);
        assert(p[i as int] == x);
        assert(seq![x][0] == x);
    } else {
        let fields = m.pool.message_seq()[m.index.0 as int].fields@;
        assert(p[i as int] == o[i as int]);
        match field_named(fields, o[i as int].0, 0) {
            None => {
                lemma_read_on(m, o, x, i + 1, lenient);
            },
            Some(k) => {
                let fd = fields[k as int];
                match field_from(m.pool, fd.kind, o[i as int].1, lenient) {
                    Err(e) => {},
                    Ok(None) => {
                        lemma_read_on(m, o, x, i + 1, lenient);
                    },
                    Ok(Some(v)) => {
                        lemma_read_on(
                            with_field(
                                crate::merge::clear_oneof(m, fd.oneof_index, fd.number),
                                fd.number,
                                v,
                            ),
                            o,
                            x,
                            i + 1,
                            lenient,
                        );
                    },
                }
            },
        }
    }
}

/// An object without members leaves a message as it was. A member behind others
/// makes its field hold what it is read as, whatever the field and the rest of
/// its oneof held before; where it is read as nothing, it changes nothing. A
/// member that no field has the name of is refused, or passed over if that is
/// asked for. What was refused stays so.
pub proof fn law_member_read(
    m: MessageModel,
    o: Seq<(Seq<char>, InputModel)>,
    key: Seq<char>,
    j: InputModel,
    lenient: bool,
)
    requires
        pool_linked(m.pool),
        m.index.0 < m.pool.message_seq().len(),
    ensures
        plain_from(m, Seq::empty(), 0, lenient) == Ok::<MessageModel, Seq<char>>(m),
        match plain_from(m, o, 0, lenient) {
            Err(e) => plain_from(m, o.push((key, j)), 0, lenient) == Err::<MessageModel, Seq<char>>(
                e,
            ),
            Ok(a) => {
                let r = plain_from(m, o.push((key, j)), 0, lenient);
                let fields = m.pool.message_seq()[m.index.0 as int].fields@;
                &&& a.pool == m.pool
                &&& a.index == m.index
                &&& match field_named(fields, key, 0) {
                    None => if lenient {
                        r == Ok::<MessageModel, Seq<char>>(a)
                    } else {
                        r is Err
                    },
                    Some(k) => match field_from(m.pool, fields[k as int].kind, j, lenient) {
                        Err(e) => r == Err::<MessageModel, Seq<char>>(e),
                        Ok(None) => r == Ok::<MessageModel, Seq<char>>(a),
                        Ok(Some(v)) => fields_sorted(a.fields) ==> (r matches Ok(x)
                            && holds_instead(a, fields[k as int], v, x)),
                    },
                }
            },
        },
{
    lemma_read_on(m, o, (key, j), 0, lenient);
    lemma_same_type(m, o, 0, lenient);
    if let Ok(a) = plain_from(m, o, 0, lenient) {
        let x = (key, j);
        reveal_with_fuel(plain_from, 3);
        assert(seq![x][0] == x);
        let fields = m.pool.message_seq()[m.index.0 as int].fields@;
        if let Some(k) = field_named(fields, key, 0) {
            if let Ok(Some(v)) = field_from(m.pool, fields[k as int].kind, j, lenient) {
                if fields_sorted(a.fields) {
                    lemma_held_instead(a, fields[k as int], v);
                }
            }
        }
    }
}

proof fn lemma_same_type(
    m: MessageModel,
    o: Seq<(Seq<char>, InputModel)>,
    i: nat,
    lenient: bool,
)
    ensures
        plain_from(m, o, i, lenient) matches Ok(a) ==> a.pool == m.pool && a.index == m.index,
    decreases o.len() - i,
{
    if i < o.len() {
        let fields = m.pool.message_seq()[m.index.0 as int].fields@;
        match field_named(fields, o[i as int].0, 0) {
            None => {
                lemma_same_type(m, o, i + 1, lenient);
            },
            Some(k) => {
                let fd = fields[k as int];
                match field_from(m.pool, fd.kind, o[i as int].1, lenient) {
                    Err(e) => {},
                    Ok(None) => {
                        lemma_same_type(m, o, i + 1, lenient);
                    },
                    Ok(Some(v)) => {
                        let c = crate::merge::clear_oneof(m, fd.oneof_index, fd.number);
                        lemma_same_type(with_field(c, fd.number, v), o, i + 1, lenient);
                    },
                }
            },
        }
    }
}

/// A plain message is read from an object, starting with nothing set, and from
/// nothing else.
pub proof fn law_plain_from(
    pool: DescriptorPool,
    index: MessageIndex,
    j: InputModel,
    lenient: bool,
)
    requires
        wkt_of(pool.message_seq()[index.0 as int].full_name@) is None,
    ensures
        match j {
            InputModel::Object(o) => exists|m: MessageModel|
                m.pool == pool && m.index == index && m.fields.len() == 0 && m.unknown.len() == 0
                    && message_from(pool, index, j, lenient) == #[trigger] plain_from(
                    m,
                    o,
                    0,
                    lenient,
                ),
            _ => message_from(pool, index, j, lenient) is Err,
        },
{
    if let InputModel::Object(o) = j {
        let m = empty_message(pool, index);
        assert(message_from(pool, index, j, lenient) == plain_from(m, o, 0, lenient));
    }
}

/// Only the enum `NullValue` and the message `Value` have a value for null.
pub proof fn law_takes_null(pool: DescriptorPool, kind: SingularKind)
    ensures
        takes_null(pool, kind) <==> match kind {
            SingularKind::Scalar(_) => false,
            SingularKind::Enum(e) => pool.enum_seq()[e.0 as int].full_name@
                == "google.protobuf.NullValue"@,
            SingularKind::Message(m) => pool.message_seq()[m.0 as int].full_name@
                == "google.protobuf.Value"@,
        },
{
    if let SingularKind::Message(m) = kind {
        crate::schema_laws::law_wkt_names(pool.message_seq()[m.0 as int].full_name@);
        crate::schema_laws::law_wkt_kinds();
    }
}

/// One element is read as its scalar, its enum number or its message. Null is no
/// element, unless there is a value for it.
pub proof fn law_element_from(
    pool: DescriptorPool,
    kind: SingularKind,
    j: InputModel,
    lenient: bool,
)
    ensures
        j is Null && !takes_null(pool, kind) ==> element_from(pool, kind, j, lenient) is Err,
        !(j is Null) || takes_null(pool, kind) ==> match kind {
            SingularKind::Scalar(s) => element_from(pool, kind, j, lenient) == input_scalar(s, j),
            SingularKind::Enum(e) => element_from(pool, kind, j, lenient) == enum_from(pool, e, j),
            SingularKind::Message(i) => match message_from(pool, i, j, lenient) {
                Ok(m) => element_from(pool, kind, j, lenient) == Ok::<ValueModel, Seq<char>>(
                    ValueModel::Message(m),
                ),
                Err(e) => element_from(pool, kind, j, lenient) == Err::<ValueModel, Seq<char>>(e),
            },
        },
{
}

proof fn lemma_items_read(
    pool: DescriptorPool,
    kind: SingularKind,
    a: Seq<InputModel>,
    i: nat,
    lenient: bool,
)
    requires
        i <= a.len(),
    ensures
        match items_from(pool, kind, a, i, lenient) {
            Ok(l) => l.len() == a.len() - i && forall|j: int|
                0 <= j < l.len() ==> element_from(pool, kind, a[i + j], lenient) == Ok::<
                    ValueModel,
                    Seq<char>,
                >(#[trigger] l[j]),
            Err(_) => exists|j: int|
                i <= j < a.len() && element_from(pool, kind, #[trigger] a[j], lenient) is Err,
        },
    decreases a.len() - i,
{
    if i < a.len() {
        lemma_items_read(pool, kind, a, i + 1, lenient);
        if let Ok(l) = items_from(pool, kind, a, i, lenient) {
            let t = items_from(pool, kind, a, i + 1, lenient)->Ok_0;
            assert forall|j: int| 0 <= j < l.len() implies element_from(
                pool,
                kind,
                a[i + j],
                lenient,
            ) == Ok::<ValueModel, Seq<char>>(#[trigger] l[j]) by {
                if j > 0 {
                    assert(l[j] == t[j - 1]);
                    assert(a[i + 1 + (j - 1)] == a[i + j]);
                }
            }
        }
    }
}

/// A field of one element is read as the element, and as nothing from null unless
/// there is a value for it.
pub proof fn law_singular_from(
    pool: DescriptorPool,
    kind: SingularKind,
    j: InputModel,
    lenient: bool,
)
    ensures
        j is Null && !takes_null(pool, kind) ==> field_from(
            pool,
            FieldKind::Singular(kind),
            j,
            lenient,
        ) == Ok::<Option<ValueModel>, Seq<char>>(None),
        !(j is Null) || takes_null(pool, kind) ==> match element_from(pool, kind, j, lenient) {
            Ok(v) => field_from(pool, FieldKind::Singular(kind), j, lenient) == Ok::<
                Option<ValueModel>,
                Seq<char>,
            >(Some(v)),
            Err(e) => field_from(pool, FieldKind::Singular(kind), j, lenient) == Err::<
                Option<ValueModel>,
                Seq<char>,
            >(e),
        },
{
}

/// A list is read from an array, element by element in its order, or not at all;
/// from null it is read as nothing, and from nothing else.
pub proof fn law_items_from(
    pool: DescriptorPool,
    kind: SingularKind,
    j: InputModel,
    lenient: bool,
)
    ensures
        match j {
            InputModel::Null => field_from(pool, FieldKind::List(kind), j, lenient) == Ok::<
                Option<ValueModel>,
                Seq<char>,
            >(None),
            InputModel::Array(a) => match field_from(pool, FieldKind::List(kind), j, lenient) {
                Ok(x) => x matches Some(ValueModel::List(l)) && l.len() == a.len() && forall|i: int|
                    0 <= i < l.len() ==> element_from(pool, kind, a[i], lenient) == Ok::<
                        ValueModel,
                        Seq<char>,
                    >(#[trigger] l[i]),
                Err(_) => exists|i: int|
                    0 <= i < a.len() && element_from(pool, kind, #[trigger] a[i], lenient) is Err,
            },
            _ => field_from(pool, FieldKind::List(kind), j, lenient) is Err,
        },
{
    if let InputModel::Array(a) = j {
        lemma_items_read(pool, kind, a, 0, lenient);
        if let Ok(l) = items_from(pool, kind, a, 0, lenient) {
            assert forall|i: int| 0 <= i < l.len() implies element_from(pool, kind, a[i], lenient)
                == Ok::<ValueModel, Seq<char>>(#[trigger] l[i]) by {
                assert(a[0 + i] == a[i]);
            }
        }
    }
}

/// What is given for the map key `k`: by the last of the members whose key is
/// read as `k`.
pub open spec fn given_for(
    s: ScalarType,
    o: Seq<(Seq<char>, InputModel)>,
    k: KeyModel,
) -> Option<InputModel>
    decreases o.len(),
{
    if o.len() == 0 {
        None
    } else if key_from(s, o.last().0) == Ok::<KeyModel, Seq<char>>(k) {
        Some(o.last().1)
    } else {
        given_for(s, o.drop_last(), k)
    }
}

proof fn lemma_entries_read(
    pool: DescriptorPool,
    key: ScalarType,
    kind: SingularKind,
    o: Seq<(Seq<char>, InputModel)>,
    i: nat,
    lenient: bool,
)
    requires
        i <= o.len(),
    ensures
        match entries_from(pool, key, kind, o, i, lenient) {
            Ok(e) => e.len() == o.len() - i && forall|j: int|
                0 <= j < e.len() ==> entry_of(pool, key, kind, o[i + j], lenient, #[trigger] e[j]),
            Err(_) => exists|j: int|
                i <= j < o.len() && (key_from(key, (#[trigger] o[j]).0) is Err || element_from(
                    pool,
                    kind,
                    o[j].1,
                    lenient,
                ) is Err),
        },
    decreases o.len() - i,
{
    if i < o.len() {
        lemma_entries_read(pool, key, kind, o, i + 1, lenient);
        if let Ok(e) = entries_from(pool, key, kind, o, i, lenient) {
            let t = entries_from(pool, key, kind, o, i + 1, lenient)->Ok_0;
            assert forall|j: int| 0 <= j < e.len() implies entry_of(
                pool,
                key,
                kind,
                o[i + j],
                lenient,
                #[trigger] e[j],
            ) by {
                if j > 0 {
                    assert(e[j] == t[j - 1]);
                    assert(o[i + 1 + (j - 1)] == o[i + j]);
                }
            }
        }
    }
}

/// An entry is what a member is read as.
pub open spec fn entry_of(
    pool: DescriptorPool,
    key: ScalarType,
    kind: SingularKind,
    x: (Seq<char>, InputModel),
    lenient: bool,
    e: (KeyModel, ValueModel),
) -> bool {
    &&& key_from(key, x.0) == Ok::<KeyModel, Seq<char>>(e.0)
    &&& element_from(pool, kind, x.1, lenient) == Ok::<ValueModel, Seq<char>>(e.1)
}

proof fn lemma_given_for(
    pool: DescriptorPool,
    key: ScalarType,
    kind: SingularKind,
    o: Seq<(Seq<char>, InputModel)>,
    lenient: bool,
    e: Seq<(KeyModel, ValueModel)>,
    k: KeyModel,
)
    requires
        e.len() == o.len(),
        forall|j: int|
            0 <= j < e.len() ==> entry_of(pool, key, kind, o[j], lenient, #[trigger] e[j]),
    ensures
        match given_for(key, o, k) {
            Some(j) => last_under(e, k) matches Some(v) && element_from(pool, kind, j, lenient)
                == Ok::<ValueModel, Seq<char>>(v),
            None => last_under(e, k) is None,
        },
    decreases e.len(),
{
    if e.len() > 0 {
        let n = e.len() - 1;
        assert(entry_of(pool, key, kind, o[n], lenient, e[n]));
        assert forall|j: int| 0 <= j < e.drop_last().len() implies entry_of(
            pool,
            key,
            kind,
            o.drop_last()[j],
            lenient,
            #[trigger] e.drop_last()[j],
        ) by {
            assert(entry_of(pool, key, kind, o[j], lenient, e[j]));
        }
        lemma_given_for(pool, key, kind, o.drop_last(), lenient, e.drop_last(), k);
    }
}

/// A map is read from an object: under each key stands what was given for it
/// last, and every key and every value has to be one. From null it is read as
/// nothing, and from nothing else.
pub proof fn law_entries_from(
    pool: DescriptorPool,
    key: ScalarType,
    value: SingularKind,
    j: InputModel,
    lenient: bool,
    k: KeyModel,
)
    ensures
        match j {
            InputModel::Null => field_from(
                pool,
                FieldKind::Mapping { key, value },
                j,
                lenient,
            ) == Ok::<Option<ValueModel>, Seq<char>>(None),
            InputModel::Object(o) => match field_from(
                pool,
                FieldKind::Mapping { key, value },
                j,
                lenient,
            ) {
                Ok(x) => x matches Some(ValueModel::Mapping(e)) && entries_sorted(e)
                    && match given_for(key, o, k) {
                    Some(y) => last_under(e, k) matches Some(v) && element_from(
                        pool,
                        value,
                        y,
                        lenient,
                    ) == Ok::<ValueModel, Seq<char>>(v),
                    None => last_under(e, k) is None,
                },
                Err(_) => exists|i: int|
                    0 <= i < o.len() && (key_from(key, (#[trigger] o[i]).0) is Err || element_from(
                        pool,
                        value,
                        o[i].1,
                        lenient,
                    ) is Err),
            },
            _ => field_from(pool, FieldKind::Mapping { key, value }, j, lenient) is Err,
        },
{
    if let InputModel::Object(o) = j {
        lemma_entries_read(pool, key, value, o, 0, lenient);
        if let Ok(e) = entries_from(pool, key, value, o, 0, lenient) {
            assert forall|i: int| 0 <= i < e.len() implies entry_of(
                pool,
                key,
                value,
                o[i],
                lenient,
                #[trigger] e[i],
            ) by {
                assert(entry_of(pool, key, value, o[0 + i], lenient, e[i]));
            }
            lemma_given_for(pool, key, value, o, lenient, e, k);
            law_last_entry(e, k);
        }
    }
}

// ── Well-known types ────────────────────────────────────────────────────────

/// The message is one of the type with `v` under `n` and nothing else.
pub open spec fn holds_only(
    m: MessageModel,
    pool: DescriptorPool,
    index: MessageIndex,
    n: u32,
    v: ValueModel,
) -> bool {
    m.pool == pool && m.index == index && m.fields == seq![(n, v)] && m.unknown.len() == 0
}

proof fn lemma_only(pool: DescriptorPool, index: MessageIndex, n: u32, v: ValueModel)
    ensures
        holds_only(with_field(empty_message(pool, index), n, v), pool, index, n, v),
{
    assert(with_field(empty_message(pool, index), n, v).fields =~= seq![(n, v)]);
}

/// The message has the seconds under 1 and the nanoseconds under 2, each where it
/// is not zero, and nothing else.
pub open spec fn holds_time(
    m: MessageModel,
    pool: DescriptorPool,
    index: MessageIndex,
    p: (i64, i32),
) -> bool {
    &&& m.pool == pool
    &&& m.index == index
    &&& m.unknown.len() == 0
    &&& field_get(m.fields, 1) == if p.0 == 0 {
        None
    } else {
        Some(ValueModel::I64(p.0))
    }
    &&& field_get(m.fields, 2) == if p.1 == 0 {
        None
    } else {
        Some(ValueModel::I32(p.1))
    }
    &&& forall|n: u32| n != 1 && n != 2 ==> #[trigger] field_get(m.fields, n) is None
}

proof fn lemma_time(pool: DescriptorPool, index: MessageIndex, p: (i64, i32))
    ensures
        holds_time(crate::from_json::two_fields(pool, index, p.0, p.1), pool, index, p),
{
    let a = empty_message(pool, index);
    let b = if p.0 != 0 {
        with_field(a, 1, ValueModel::I64(p.0))
    } else {
        a
    };
    let c = crate::from_json::two_fields(pool, index, p.0, p.1);
    assert forall|n: u32| #[trigger]
        field_get(c.fields, n) == (if n == 1 && p.0 != 0 {
            Some(ValueModel::I64(p.0))
        } else if n == 2 && p.1 != 0 {
            Some(ValueModel::I32(p.1))
        } else {
            None
        }) by {
        assert(field_get(a.fields, n) is None);
        crate::value::lemma_put_get(a.fields, 1, ValueModel::I64(p.0), n);
        crate::value::lemma_put_get(b.fields, 2, ValueModel::I32(p.1), n);
    }
}

/// A timestamp and a duration are read from the texts that spell one, and from
/// nothing else.
pub proof fn law_time_from(
    pool: DescriptorPool,
    index: MessageIndex,
    j: InputModel,
    lenient: bool,
)
    ensures
        ({
            let w = wkt_of(pool.message_seq()[index.0 as int].full_name@);
            let r = message_from(pool, index, j, lenient);
            &&& w == Some(WktKind::Timestamp) ==> match j {
                InputModel::Text(t) => match parsed_timestamp(t) {
                    Ok(p) => r matches Ok(m) && holds_time(m, pool, index, p),
                    Err(e) => r == Err::<MessageModel, Seq<char>>(e),
                },
                _ => r is Err,
            }
            &&& w == Some(WktKind::Duration) ==> match j {
                InputModel::Text(t) => match parsed_duration(t) {
                    Ok(p) => r matches Ok(m) && holds_time(m, pool, index, p),
                    Err(e) => r == Err::<MessageModel, Seq<char>>(e),
                },
                _ => r is Err,
            }
        }),
{
    if let InputModel::Text(t) = j {
        if let Ok(p) = parsed_timestamp(t) {
            lemma_time(pool, index, p);
        }
        if let Ok(p) = parsed_duration(t) {
            lemma_time(pool, index, p);
        }
    }
}

/// The message has the paths in a list under 1, and nothing else.
pub open spec fn holds_paths(
    m: MessageModel,
    pool: DescriptorPool,
    index: MessageIndex,
    p: Seq<Seq<char>>,
) -> bool {
    &&& m.pool == pool
    &&& m.index == index
    &&& m.unknown.len() == 0
    &&& m.fields.len() == 1
    &&& m.fields[0].0 == 1
    &&& m.fields[0].1 is List
    &&& m.fields[0].1->List_0.len() == p.len()
    &&& forall|i: int|
        0 <= i < p.len() ==> #[trigger] m.fields[0].1->List_0[i] == ValueModel::Text(p[i])
}

/// A field mask is read from a text of paths, and from nothing else.
pub proof fn law_mask_from(
    pool: DescriptorPool,
    index: MessageIndex,
    j: InputModel,
    lenient: bool,
)
    requires
        wkt_of(pool.message_seq()[index.0 as int].full_name@) == Some(WktKind::FieldMask),
    ensures
        match j {
            InputModel::Text(t) => match mask_paths(t) {
                Ok(p) => message_from(pool, index, j, lenient) matches Ok(m) && holds_paths(
                    m,
                    pool,
                    index,
                    p,
                ),
                Err(e) => message_from(pool, index, j, lenient) == Err::<MessageModel, Seq<char>>(
                    e,
                ),
            },
            _ => message_from(pool, index, j, lenient) is Err,
        },
{
    if let InputModel::Text(t) = j {
        if let Ok(p) = mask_paths(t) {
            lemma_only(pool, index, 1, ValueModel::List(crate::from_json::text_values(p)));
        }
    }
}

/// An `Empty` is read from an object without members, and from nothing else. A
/// wrapper is read from what it wraps, with null as the default.
pub proof fn law_wrapper_from(
    pool: DescriptorPool,
    index: MessageIndex,
    j: InputModel,
    lenient: bool,
)
    ensures
        ({
            let w = wkt_of(pool.message_seq()[index.0 as int].full_name@);
            let r = message_from(pool, index, j, lenient);
            &&& w == Some(WktKind::Empty) ==> {
                &&& r is Ok <==> j is Object && j->Object_0.len() == 0
                &&& r matches Ok(m) ==> m.pool == pool && m.index == index && m.fields.len() == 0
                    && m.unknown.len() == 0
            }
            &&& w matches Some(WktKind::Wrapper(s)) ==> match input_scalar(s, j) {
                Ok(v) => r matches Ok(m) && holds_only(m, pool, index, 1, v),
                Err(e) => r == Err::<MessageModel, Seq<char>>(e),
            }
        }),
{
    if let Some(WktKind::Wrapper(s)) = wkt_of(pool.message_seq()[index.0 as int].full_name@) {
        if let Ok(v) = input_scalar(s, j) {
            lemma_only(pool, index, 1, v);
        }
    }
}

/// A `Value` is read from everything: null, a truth value, a number and a text
/// under the number of that member; an array as the `ListValue`, and an object as
/// the `Struct`, that it is read as.
pub proof fn law_dynamic_from(
    pool: DescriptorPool,
    index: MessageIndex,
    j: InputModel,
    lenient: bool,
)
    requires
        pool.message_seq().len() <= usize::MAX,
        wkt_of(pool.message_seq()[index.0 as int].full_name@) == Some(WktKind::JsonValue),
    ensures
        ({
            let r = message_from(pool, index, j, lenient);
            match j {
                InputModel::Null => r matches Ok(m) && holds_only(
                    m,
                    pool,
                    index,
                    1,
                    ValueModel::EnumNumber(0),
                ),
                InputModel::Number(n) => r matches Ok(m) && holds_only(
                    m,
                    pool,
                    index,
                    2,
                    ValueModel::F64(n.double),
                ),
                InputModel::Text(t) => r matches Ok(m) && holds_only(
                    m,
                    pool,
                    index,
                    3,
                    ValueModel::Text(t),
                ),
                InputModel::Bool(b) => r matches Ok(m) && holds_only(
                    m,
                    pool,
                    index,
                    4,
                    ValueModel::Bool(b),
                ),
                InputModel::Object(_) => read_under(r, pool, index, 5, "google.protobuf.Struct"@, j),
                InputModel::Array(_) => read_under(
                    r,
                    pool,
                    index,
                    6,
                    "google.protobuf.ListValue"@,
                    j,
                ),
            }
        }),
{
    let m = empty_message(pool, index);
    match j {
        InputModel::Null => {
            lemma_only(pool, index, 1, ValueModel::EnumNumber(0));
        },
        InputModel::Number(n) => {
            lemma_only(pool, index, 2, ValueModel::F64(n.double));
        },
        InputModel::Text(t) => {
            lemma_only(pool, index, 3, ValueModel::Text(t));
        },
        InputModel::Bool(b) => {
            lemma_only(pool, index, 4, ValueModel::Bool(b));
        },
        InputModel::Object(o) => {
            let name = "google.protobuf.Struct"@;
            crate::schema_laws::law_index_of(pool, name);
            crate::schema_laws::law_wkt_kinds();
            if let Some(i) = index_of(pool, name) {
                let q = message_from(pool, i, j, false);
                assert(wkt_of(pool.message_seq()[i.0 as int].full_name@) == Some(WktKind::Struct));
                assert(q == crate::from_json::struct_from(pool, i, o));
                if let Ok(x) = q {
                    lemma_only(pool, index, 5, ValueModel::Message(x));
                }
            }
        },
        InputModel::Array(a) => {
            let name = "google.protobuf.ListValue"@;
            crate::schema_laws::law_index_of(pool, name);
            crate::schema_laws::law_wkt_kinds();
            if let Some(i) = index_of(pool, name) {
                let q = message_from(pool, i, j, false);
                assert(wkt_of(pool.message_seq()[i.0 as int].full_name@) == Some(
                    WktKind::ListValue,
                ));
                assert(q == crate::from_json::list_from(pool, i, a));
                if let Ok(x) = q {
                    lemma_only(pool, index, 6, ValueModel::Message(x));
                }
            }
        },
    }
}

/// What was read is a message that holds, under `n` and nothing else, what `j` is
/// read as in the type of that name; it failed where that does, or where the pool
/// has no such type.
pub open spec fn read_under(
    r: Result<MessageModel, Seq<char>>,
    pool: DescriptorPool,
    index: MessageIndex,
    n: u32,
    name: Seq<char>,
    j: InputModel,
) -> bool {
    match index_of(pool, name) {
        None => r is Err,
        Some(i) => match message_from(pool, i, j, false) {
            Ok(x) => r matches Ok(m) && holds_only(m, pool, index, n, ValueModel::Message(x)),
            Err(e) => r == Err::<MessageModel, Seq<char>>(e),
        },
    }
}

proof fn lemma_list_read(pool: DescriptorPool, v: MessageIndex, a: Seq<InputModel>, i: nat)
    requires
        i <= a.len(),
    ensures
        match list_items(pool, v, a, i) {
            Ok(l) => l.len() == a.len() - i && forall|j: int|
                0 <= j < l.len() ==> (#[trigger] l[j]) is Message && message_from(
                    pool,
                    v,
                    a[i + j],
                    false,
                ) == Ok::<MessageModel, Seq<char>>(l[j]->Message_0),
            Err(_) => exists|j: int|
                i <= j < a.len() && message_from(pool, v, #[trigger] a[j], false) is Err,
        },
    decreases a.len() - i,
{
    if i < a.len() {
        lemma_list_read(pool, v, a, i + 1);
        if let Ok(l) = list_items(pool, v, a, i) {
            let t = list_items(pool, v, a, i + 1)->Ok_0;
            assert forall|j: int| 0 <= j < l.len() implies (#[trigger] l[j]) is Message
                && message_from(pool, v, a[i + j], false) == Ok::<MessageModel, Seq<char>>(
                l[j]->Message_0,
            ) by {
                if j > 0 {
                    assert(l[j] == t[j - 1]);
                    assert(a[i + 1 + (j - 1)] == a[i + j]);
                }
            }
        }
    }
}

/// A `ListValue` is read from an array: a list of `Value`s, one for each element
/// in its order.
pub proof fn law_list_from(
    pool: DescriptorPool,
    index: MessageIndex,
    j: InputModel,
    lenient: bool,
)
    requires
        wkt_of(pool.message_seq()[index.0 as int].full_name@) == Some(WktKind::ListValue),
    ensures
        ({
            let r = message_from(pool, index, j, lenient);
            match (j, index_of(pool, "google.protobuf.Value"@)) {
                (InputModel::Array(a), Some(v)) => match r {
                    Ok(m) => exists|l: Seq<ValueModel>|
                        #[trigger] holds_only(m, pool, index, 1, ValueModel::List(l)) && l.len()
                            == a.len() && forall|i: int|
                            0 <= i < l.len() ==> (#[trigger] l[i]) is Message && message_from(
                                pool,
                                v,
                                a[i],
                                false,
                            ) == Ok::<MessageModel, Seq<char>>(l[i]->Message_0),
                    Err(_) => exists|i: int|
                        0 <= i < a.len() && message_from(pool, v, #[trigger] a[i], false) is Err,
                },
                _ => r is Err,
            }
        }),
{
    if let InputModel::Array(a) = j {
        if let Some(v) = index_of(pool, "google.protobuf.Value"@) {
            lemma_list_read(pool, v, a, 0);
            assert(message_from(pool, index, j, lenient) == crate::from_json::list_from(
                pool,
                index,
                a,
            ));
            if let Ok(l) = list_items(pool, v, a, 0) {
                lemma_only(pool, index, 1, ValueModel::List(l));
                let m = message_from(pool, index, j, lenient)->Ok_0;
                assert(holds_only(m, pool, index, 1, ValueModel::List(l)));
                assert forall|i: int| 0 <= i < l.len() implies (#[trigger] l[i]) is Message
                    && message_from(pool, v, a[i], false) == Ok::<MessageModel, Seq<char>>(
                    l[i]->Message_0,
                ) by {
                    assert(a[0 + i] == a[i]);
                }
            }
        }
    }
}

// ── Members by key ──────────────────────────────────────────────────────────

/// What is given for a key: by the last of the members under it.
pub open spec fn given(o: Seq<(Seq<char>, InputModel)>, k: Seq<char>) -> Option<InputModel>
    decreases o.len(),
{
    if o.len() == 0 {
        None
    } else if o.last().0 == k {
        Some(o.last().1)
    } else {
        given(o.drop_last(), k)
    }
}

/// The members are in the order of their keys, no key twice.
pub open spec fn members_sorted(o: Seq<(Seq<char>, InputModel)>) -> bool {
    forall|i: int, j: int|
        0 <= i < j < o.len() ==> bytes_before(
            encode_utf8((#[trigger] o[i]).0),
            encode_utf8((#[trigger] o[j]).0),
        )
}

proof fn lemma_given_put(
    s: Seq<(Seq<char>, InputModel)>,
    k: Seq<char>,
    v: InputModel,
    l: Seq<char>,
)
    ensures
        given(member_put(s, k, v), l) == if l == k {
            Some(v)
        } else {
            given(s, l)
        },
    decreases s.len(),
{
    let r = member_put(s, k, v);
    if s.len() == 0 || bytes_before(encode_utf8(s.last().0), encode_utf8(k)) {
        assert(r.drop_last() =~= s);
        assert(r.last() == (k, v));
    } else if s.last().0 == k {
        assert(r.drop_last() =~= s.drop_last());
        assert(r.last() == (k, v));
    } else {
        lemma_given_put(s.drop_last(), k, v, l);
        assert(r.drop_last() =~= member_put(s.drop_last(), k, v));
        assert(r.last() == s.last());
    }
}

proof fn lemma_put_members_sorted(s: Seq<(Seq<char>, InputModel)>, k: Seq<char>, v: InputModel)
    requires
        members_sorted(s),
    ensures
        members_sorted(member_put(s, k, v)),
        forall|i: int|
            0 <= i < member_put(s, k, v).len() ==> (#[trigger] member_put(s, k, v)[i]).0 == k
                || exists|j: int| 0 <= j < s.len() && (#[trigger] s[j]).0 == member_put(
                s,
                k,
                v,
            )[i].0,
    decreases s.len(),
{
    let r = member_put(s, k, v);
    if s.len() == 0 {
    } else {
        let x = s.last().0;
        let t = s.drop_last();
        assert(s[s.len() - 1].0 == x);
        assert forall|i: int, j: int| 0 <= i < j < t.len() implies bytes_before(
            encode_utf8((#[trigger] t[i]).0),
            encode_utf8((#[trigger] t[j]).0),
        ) by {
            assert(s[i] == t[i] && s[j] == t[j]);
        }
        lemma_key_order_total(KeyModel::Text(x), KeyModel::Text(k));
        if bytes_before(encode_utf8(x), encode_utf8(k)) {
            assert forall|i: int, j: int| 0 <= i < j < r.len() implies bytes_before(
                encode_utf8((#[trigger] r[i]).0),
                encode_utf8((#[trigger] r[j]).0),
            ) by {
                assert(r[i] == s[i]);
                if j < s.len() {
                    assert(r[j] == s[j]);
                } else if i < s.len() - 1 {
                    assert(bytes_before(encode_utf8(s[i].0), encode_utf8(s[s.len() - 1].0)));
                    lemma_key_order_transitive(
                        KeyModel::Text(s[i].0),
                        KeyModel::Text(x),
                        KeyModel::Text(k),
                    );
                }
            }
            assert forall|i: int| 0 <= i < r.len() implies (#[trigger] r[i]).0 == k || exists|j:
                int| 0 <= j < s.len() && (#[trigger] s[j]).0 == r[i].0 by {
                if i < s.len() {
                    assert(s[i].0 == r[i].0);
                }
            }
        } else if x == k {
            assert forall|i: int, j: int| 0 <= i < j < r.len() implies bytes_before(
                encode_utf8((#[trigger] r[i]).0),
                encode_utf8((#[trigger] r[j]).0),
            ) by {
                assert(r[i].0 == s[i].0 && r[j].0 == s[j].0);
            }
            assert forall|i: int| 0 <= i < r.len() implies (#[trigger] r[i]).0 == k || exists|j:
                int| 0 <= j < s.len() && (#[trigger] s[j]).0 == r[i].0 by {
                assert(s[i].0 == r[i].0);
            }
        } else {
            let u = member_put(t, k, v);
            lemma_put_members_sorted(t, k, v);
            assert forall|i: int| 0 <= i < u.len() implies bytes_before(
                encode_utf8((#[trigger] u[i]).0),
                encode_utf8(x),
            ) by {
                if u[i].0 != k {
                    let j = choose|j: int| 0 <= j < t.len() && (#[trigger] t[j]).0 == u[i].0;
                    assert(s[j] == t[j]);
                    assert(bytes_before(encode_utf8(s[j].0), encode_utf8(s[s.len() - 1].0)));
                }
            }
            assert forall|i: int, j: int| 0 <= i < j < r.len() implies bytes_before(
                encode_utf8((#[trigger] r[i]).0),
                encode_utf8((#[trigger] r[j]).0),
            ) by {
                assert(r[i] == u[i]);
                if j < u.len() {
                    assert(r[j] == u[j]);
                }
            }
            assert forall|i: int| 0 <= i < r.len() implies (#[trigger] r[i]).0 == k || exists|j:
                int| 0 <= j < s.len() && (#[trigger] s[j]).0 == r[i].0 by {
                if i < u.len() {
                    assert(r[i] == u[i]);
                    if u[i].0 != k {
                        let j = choose|j: int| 0 <= j < t.len() && (#[trigger] t[j]).0 == u[i].0;
                        assert(s[j].0 == r[i].0);
                    }
                } else {
                    assert(s[s.len() - 1].0 == r[i].0);
                }
            }
        }
    }
}

/// After an object was read as a whole, each of its keys has what was given for
/// it last, and the members are in the order of their keys.
pub proof fn law_buffered_members(o: Seq<(Seq<char>, InputModel)>, k: Seq<char>)
    ensures
        given(buffered_members(o), k) == match given(o, k) {
            Some(j) => Some(buffered(j)),
            None => None,
        },
        members_sorted(buffered_members(o)),
    decreases o.len(),
{
    if o.len() > 0 {
        let t = o.drop_last();
        let x = o[o.len() - 1];
        law_buffered_members(t, k);
        lemma_given_put(buffered_members(t), x.0, buffered(x.1), k);
        lemma_put_members_sorted(buffered_members(t), x.0, buffered(x.1));
    }
}

proof fn lemma_buffered_items(a: Seq<InputModel>)
    ensures
        buffered_items(a).len() == a.len(),
        forall|i: int|
            0 <= i < a.len() ==> #[trigger] buffered_items(a)[i] == buffered(a[i]),
    decreases a.len(),
{
    if a.len() > 0 {
        lemma_buffered_items(a.drop_last());
        assert forall|i: int| 0 <= i < a.len() implies #[trigger] buffered_items(a)[i] == buffered(
            a[i],
        ) by {
            if i < a.len() - 1 {
                assert(buffered_items(a.drop_last())[i] == buffered(a.drop_last()[i]));
            }
        }
    }
}

/// A value that was read as a whole is as it was given, but for numbers that are
/// not finite, which are null, and the members of objects.
pub proof fn law_buffered(j: InputModel)
    ensures
        match j {
            InputModel::Number(n) => if n.double % 0x8000_0000_0000_0000 < 0x7ff0_0000_0000_0000 {
                buffered(j) == j
            } else {
                buffered(j) is Null
            },
            InputModel::Array(a) => buffered(j) matches InputModel::Array(b) && b.len() == a.len()
                && forall|i: int| 0 <= i < a.len() ==> #[trigger] b[i] == buffered(a[i]),
            InputModel::Object(o) => buffered(j) matches InputModel::Object(b) && b
                == buffered_members(o),
            _ => buffered(j) == j,
        },
{
    if let InputModel::Array(a) = j {
        lemma_buffered_items(a);
    }
}

proof fn lemma_sorted_given(s: Seq<(Seq<char>, InputModel)>, p: int)
    requires
        members_sorted(s),
        0 <= p < s.len(),
    ensures
        given(s, s[p].0) == Some(s[p].1),
    decreases s.len(),
{
    if p < s.len() - 1 {
        let t = s.drop_last();
        assert forall|i: int, j: int| 0 <= i < j < t.len() implies bytes_before(
            encode_utf8((#[trigger] t[i]).0),
            encode_utf8((#[trigger] t[j]).0),
        ) by {
            assert(s[i] == t[i] && s[j] == t[j]);
        }
        assert(bytes_before(encode_utf8(s[p].0), encode_utf8(s[s.len() - 1].0)));
        lemma_key_order_total(KeyModel::Text(s[p].0), KeyModel::Text(s[s.len() - 1].0));
        lemma_sorted_given(t, p);
    }
}

proof fn lemma_given_there(o: Seq<(Seq<char>, InputModel)>, k: Seq<char>)
    ensures
        given(o, k) is Some <==> exists|i: int| 0 <= i < o.len() && (#[trigger] o[i]).0 == k,
    decreases o.len(),
{
    if o.len() > 0 {
        let t = o.drop_last();
        lemma_given_there(t, k);
        if o.last().0 == k {
            assert(o[o.len() - 1].0 == k);
        } else {
            if given(t, k) is Some {
                let i = choose|i: int| 0 <= i < t.len() && (#[trigger] t[i]).0 == k;
                assert(o[i].0 == k);
            }
            if exists|i: int| 0 <= i < o.len() && (#[trigger] o[i]).0 == k {
                let i = choose|i: int| 0 <= i < o.len() && (#[trigger] o[i]).0 == k;
                assert(t[i].0 == k);
            }
        }
    }
}

proof fn lemma_at_given(s: Seq<(Seq<char>, InputModel)>, k: Seq<char>)
    requires
        members_sorted(s),
    ensures
        match member_at(s, k, 0) {
            Some(p) => p < s.len() && s[p as int].0 == k && given(s, k) == Some(s[p as int].1),
            None => given(s, k) is None,
        },
{
    crate::buffered::lemma_member_at(s, k, 0);
    lemma_given_there(s, k);
    match member_at(s, k, 0) {
        Some(p) => {
            lemma_sorted_given(s, p as int);
        },
        None => {
            lemma_at_none(s, k, 0);
        },
    }
}

proof fn lemma_at_none(s: Seq<(Seq<char>, InputModel)>, k: Seq<char>, i: nat)
    requires
        member_at(s, k, i) is None,
    ensures
        forall|j: int| i <= j < s.len() ==> (#[trigger] s[j]).0 != k,
    decreases s.len() - i,
{
    if i < s.len() {
        lemma_at_none(s, k, i + 1);
    }
}

proof fn lemma_given_rest(s: Seq<(Seq<char>, InputModel)>, p: int, l: Seq<char>)
    requires
        members_sorted(s),
        0 <= p < s.len(),
    ensures
        members_sorted(s.remove(p)),
        given(s.remove(p), l) == if l == s[p].0 {
            None
        } else {
            given(s, l)
        },
{
    let r = s.remove(p);
    assert forall|i: int| 0 <= i < r.len() implies #[trigger] r[i] == s[if i < p {
        i
    } else {
        i + 1
    }] by {}
    assert forall|i: int, j: int| 0 <= i < j < r.len() implies bytes_before(
        encode_utf8((#[trigger] r[i]).0),
        encode_utf8((#[trigger] r[j]).0),
    ) by {
        let a = if i < p {
            i
        } else {
            i + 1
        };
        let b = if j < p {
            j
        } else {
            j + 1
        };
        assert(bytes_before(encode_utf8(s[a].0), encode_utf8(s[b].0)));
    }
    lemma_given_there(r, l);
    lemma_given_there(s, l);
    if given(r, l) is Some {
        let i = choose|i: int| 0 <= i < r.len() && (#[trigger] r[i]).0 == l;
        let a = if i < p {
            i
        } else {
            i + 1
        };
        lemma_sorted_given(r, i);
        lemma_sorted_given(s, a);
        lemma_key_order_total(KeyModel::Text(s[a].0), KeyModel::Text(s[p].0));
        if a < p {
            assert(bytes_before(encode_utf8(s[a].0), encode_utf8(s[p].0)));
        } else {
            assert(bytes_before(encode_utf8(s[p].0), encode_utf8(s[a].0)));
        }
    } else if given(s, l) is Some && l != s[p].0 {
        let a = choose|i: int| 0 <= i < s.len() && (#[trigger] s[i]).0 == l;
        let i = if a < p {
            a
        } else {
            a - 1
        };
        assert(r[i] == s[a]);
        assert(r[i].0 == l);
    }
}

// ── Struct ──────────────────────────────────────────────────────────────────

proof fn lemma_struct_read(
    pool: DescriptorPool,
    v: MessageIndex,
    o: Seq<(Seq<char>, InputModel)>,
    i: nat,
)
    requires
        i <= o.len(),
    ensures
        match struct_entries(pool, v, o, i) {
            Ok(e) => e.len() == o.len() - i && forall|j: int|
                0 <= j < e.len() ==> struct_entry_of(pool, v, o[i + j], #[trigger] e[j]),
            Err(_) => exists|j: int|
                i <= j < o.len() && message_from(pool, v, (#[trigger] o[j]).1, false) is Err,
        },
    decreases o.len() - i,
{
    if i < o.len() {
        lemma_struct_read(pool, v, o, i + 1);
        if let Ok(e) = struct_entries(pool, v, o, i) {
            let t = struct_entries(pool, v, o, i + 1)->Ok_0;
            assert forall|j: int| 0 <= j < e.len() implies struct_entry_of(
                pool,
                v,
                o[i + j],
                #[trigger] e[j],
            ) by {
                if j > 0 {
                    assert(e[j] == t[j - 1]);
                    assert(o[i + 1 + (j - 1)] == o[i + j]);
                }
            }
        }
    }
}

/// An entry of a `Struct` is what a member is read as.
pub open spec fn struct_entry_of(
    pool: DescriptorPool,
    v: MessageIndex,
    x: (Seq<char>, InputModel),
    e: (KeyModel, ValueModel),
) -> bool {
    &&& e.0 == KeyModel::Text(x.0)
    &&& e.1 is Message
    &&& message_from(pool, v, x.1, false) == Ok::<MessageModel, Seq<char>>(e.1->Message_0)
}

proof fn lemma_struct_given(
    pool: DescriptorPool,
    v: MessageIndex,
    o: Seq<(Seq<char>, InputModel)>,
    e: Seq<(KeyModel, ValueModel)>,
    k: KeyModel,
)
    requires
        e.len() == o.len(),
        forall|j: int| 0 <= j < e.len() ==> struct_entry_of(pool, v, o[j], #[trigger] e[j]),
    ensures
        holds_given(pool, v, o, e, k),
    decreases e.len(),
{
    if e.len() > 0 {
        let n = e.len() - 1;
        assert(struct_entry_of(pool, v, o[n], e[n]));
        assert forall|j: int| 0 <= j < e.drop_last().len() implies struct_entry_of(
            pool,
            v,
            o.drop_last()[j],
            #[trigger] e.drop_last()[j],
        ) by {
            assert(struct_entry_of(pool, v, o[j], e[j]));
        }
        lemma_struct_given(pool, v, o.drop_last(), e.drop_last(), k);
    }
}

/// Under `k` stands the `Value` that what is given for it is read as.
pub open spec fn holds_given(
    pool: DescriptorPool,
    v: MessageIndex,
    o: Seq<(Seq<char>, InputModel)>,
    e: Seq<(KeyModel, ValueModel)>,
    k: KeyModel,
) -> bool {
    match k {
        KeyModel::Text(t) => match given(o, t) {
            Some(j) => last_under(e, k) matches Some(ValueModel::Message(x)) && message_from(
                pool,
                v,
                j,
                false,
            ) == Ok::<MessageModel, Seq<char>>(x),
            None => last_under(e, k) is None,
        },
        _ => last_under(e, k) is None,
    }
}

/// A `Struct` is read from an object: a map with, under each key, the `Value`
/// that what was given for it last is read as.
pub proof fn law_struct_from(
    pool: DescriptorPool,
    index: MessageIndex,
    j: InputModel,
    lenient: bool,
)
    requires
        wkt_of(pool.message_seq()[index.0 as int].full_name@) == Some(WktKind::Struct),
    ensures
        ({
            let r = message_from(pool, index, j, lenient);
            match (j, index_of(pool, "google.protobuf.Value"@)) {
                (InputModel::Object(o), Some(v)) => match r {
                    Ok(m) => exists|e: Seq<(KeyModel, ValueModel)>|
                        #[trigger] holds_only(m, pool, index, 1, ValueModel::Mapping(e))
                            && entries_sorted(e) && forall|k: KeyModel|
                            #[trigger] holds_given(pool, v, o, e, k),
                    Err(_) => exists|i: int|
                        0 <= i < o.len() && message_from(
                            pool,
                            v,
                            (#[trigger] o[i]).1,
                            false,
                        ) is Err,
                },
                _ => r is Err,
            }
        }),
{
    if let InputModel::Object(o) = j {
        if let Some(v) = index_of(pool, "google.protobuf.Value"@) {
            lemma_struct_read(pool, v, o, 0);
            assert(message_from(pool, index, j, lenient) == crate::from_json::struct_from(
                pool,
                index,
                o,
            ));
            if let Ok(s) = struct_entries(pool, v, o, 0) {
                let e = normal_entries(s);
                lemma_only(pool, index, 1, ValueModel::Mapping(e));
                let m = message_from(pool, index, j, lenient)->Ok_0;
                assert(holds_only(m, pool, index, 1, ValueModel::Mapping(e)));
                law_last_entry(s, KeyModel::Bool(true));
                assert forall|i: int| 0 <= i < s.len() implies struct_entry_of(
                    pool,
                    v,
                    o[i],
                    #[trigger] s[i],
                ) by {
                    assert(struct_entry_of(pool, v, o[0 + i], s[i]));
                }
                assert forall|k: KeyModel| #[trigger] holds_given(pool, v, o, e, k) by {
                    law_last_entry(s, k);
                    lemma_struct_given(pool, v, o, s, k);
                }
            }
        }
    }
}

// ── Any ─────────────────────────────────────────────────────────────────────

/// What was read is an `Any` with the `type_url` under 1 and, under 2, the bytes
/// of the message that its payload was read as, and nothing else; it failed where
/// the payload did, or is too large.
pub open spec fn holds_payload(
    r: Result<MessageModel, Seq<char>>,
    pool: DescriptorPool,
    index: MessageIndex,
    url: Seq<char>,
    inner: Result<MessageModel, Seq<char>>,
) -> bool {
    match inner {
        Ok(x) => if message_bytes(x).len() <= 0x7fff_ffff {
            &&& r matches Ok(m)
            &&& m.pool == pool
            &&& m.index == index
            &&& m.unknown.len() == 0
            &&& text_at(m, 1) == url
            &&& bytes_at(m, 2) == message_bytes(x)
            &&& m.fields == seq![
                (1u32, ValueModel::Text(url)),
                (2u32, ValueModel::Bytes(message_bytes(x))),
            ]
        } else {
            r is Err
        },
        Err(_) => r is Err,
    }
}

proof fn lemma_payload(
    pool: DescriptorPool,
    index: MessageIndex,
    url: Seq<char>,
    inner: Result<MessageModel, Seq<char>>,
)
    ensures
        holds_payload(
            crate::from_json::any_with(pool, index, url, inner),
            pool,
            index,
            url,
            inner,
        ),
{
    if let Ok(x) = inner {
        let a = empty_message(pool, index);
        let b = with_field(a, 1, ValueModel::Text(url));
        let c = with_field(b, 2, ValueModel::Bytes(message_bytes(x)));
        assert(b.fields =~= seq![(1u32, ValueModel::Text(url))]);
        reveal_with_fuel(field_get, 3);
        reveal_with_fuel(field_insert, 3);
        assert(c.fields =~= seq![
            (1u32, ValueModel::Text(url)),
            (2u32, ValueModel::Bytes(message_bytes(x))),
        ]);
        assert(c.fields.drop_last() =~= b.fields);
        assert(field_get(c.fields, 1) == Some(ValueModel::Text(url)));
        assert(field_get(c.fields, 2) == Some(ValueModel::Bytes(message_bytes(x))));
    }
}

/// An object without members is read as an `Any` that wraps nothing. Any other
/// needs a text under "@type" that names a type of the pool.
pub proof fn law_any_typed(
    pool: DescriptorPool,
    index: MessageIndex,
    o: Seq<(Seq<char>, InputModel)>,
    lenient: bool,
)
    ensures
        o.len() == 0 ==> (any_from(pool, index, o, lenient) matches Ok(m) && m.pool == pool
            && m.index == index && m.fields.len() == 0 && m.unknown.len() == 0),
        o.len() > 0 && any_from(pool, index, o, lenient) is Ok ==> (given(
            o,
            "@type"@,
        ) matches Some(InputModel::Text(url)) && any_type(pool, url) is Some),
{
    let all = buffered_members(o);
    law_buffered_members(o, "@type"@);
    lemma_at_given(all, "@type"@);
    if o.len() > 0 {
        let k = o.last().0;
        law_buffered_members(o, k);
        if all.len() == 0 {
            assert(given(all, k) is None);
        }
        if let Some(j) = given(o, "@type"@) {
            law_buffered(j);
        }
    }
}

/// Of an object with members, what was given last under "@type" has to be a text
/// that names a type of the pool.
pub proof fn law_any_found(
    pool: DescriptorPool,
    index: MessageIndex,
    o: Seq<(Seq<char>, InputModel)>,
    lenient: bool,
)
    ensures
        o.len() > 0 ==> match given(o, "@type"@) {
            Some(InputModel::Text(url)) => any_type(pool, url) is None ==> any_from(
                pool,
                index,
                o,
                lenient,
            ) == Err::<MessageModel, Seq<char>>(crate::to_json::unknown_url(url)),
            _ => any_from(pool, index, o, lenient) == Err::<MessageModel, Seq<char>>(
                "Any object missing string \"@type\""@,
            ),
        },
{
    let all = buffered_members(o);
    law_buffered_members(o, "@type"@);
    lemma_at_given(all, "@type"@);
    if o.len() > 0 {
        let k = o.last().0;
        law_buffered_members(o, k);
        if all.len() == 0 {
            assert(given(all, k) is None);
        }
        if let Some(j) = given(o, "@type"@) {
            law_buffered(j);
        }
    }
}

/// Every key of the object is one of the two.
pub open spec fn keys_among(
    o: Seq<(Seq<char>, InputModel)>,
    a: Seq<char>,
    b: Seq<char>,
) -> bool {
    forall|i: int| 0 <= i < o.len() ==> (#[trigger] o[i]).0 == a || o[i].0 == b
}

proof fn lemma_nothing_left(
    o: Seq<(Seq<char>, InputModel)>,
    rest: Seq<(Seq<char>, InputModel)>,
    a: Seq<char>,
    b: Seq<char>,
)
    requires
        forall|l: Seq<char>|
            #[trigger] given(rest, l) is Some <==> given(o, l) is Some && l != a && l != b,
    ensures
        rest.len() == 0 <==> keys_among(o, a, b),
{
    if rest.len() == 0 {
        assert forall|i: int| 0 <= i < o.len() implies (#[trigger] o[i]).0 == a || o[i].0 == b by {
            let l = o[i].0;
            lemma_given_there(o, l);
            assert(given(rest, l) is None);
        }
    } else {
        let l = rest.last().0;
        assert(given(rest, l) is Some);
        lemma_given_there(o, l);
        let i = choose|i: int| 0 <= i < o.len() && (#[trigger] o[i]).0 == l;
        assert(o[i].0 == l);
    }
}

/// Where "@type" names a well-known type other than `Empty`, the bytes of the
/// `Any` are those of the message that the JSON under "value" is read as in that
/// type. There has to be a "value", and nothing else beside the two, unless that
/// is passed over.
pub proof fn law_any_value(
    pool: DescriptorPool,
    index: MessageIndex,
    o: Seq<(Seq<char>, InputModel)>,
    lenient: bool,
    url: Seq<char>,
    i: MessageIndex,
)
    requires
        given(o, "@type"@) == Some(InputModel::Text(url)),
        any_type(pool, url) == Some(i),
        wkt_of(pool.message_seq()[i.0 as int].full_name@) is Some,
        !(wkt_of(pool.message_seq()[i.0 as int].full_name@)->Some_0 is Empty),
    ensures
        match given(o, "value"@) {
            Some(j) => if lenient || keys_among(o, "@type"@, "value"@) {
                holds_payload(
                    any_from(pool, index, o, lenient),
                    pool,
                    index,
                    url,
                    message_from(pool, i, buffered(j), lenient),
                )
            } else {
                any_from(pool, index, o, lenient) is Err
            },
            None => any_from(pool, index, o, lenient) == Err::<MessageModel, Seq<char>>(
                "Any with WKT type "@ + quoted_text(url) + " requires a \"value\" key"@,
            ),
        },
{
    reveal_strlit("@type");
    reveal_strlit("value");
    assert("@type"@[0] == '@' && "value"@[0] == 'v');
    let all = buffered_members(o);
    law_buffered_members(o, "@type"@);
    law_buffered_members(o, "value"@);
    law_buffered(InputModel::Text(url));
    lemma_at_given(all, "@type"@);
    let p = member_at(all, "@type"@, 0)->Some_0;
    let rest = all.remove(p as int);
    lemma_given_rest(all, p as int, "value"@);
    lemma_at_given(rest, "value"@);
    if let Some(j) = given(o, "value"@) {
        let q = member_at(rest, "value"@, 0)->Some_0;
        let more = rest.remove(q as int);
        assert forall|l: Seq<char>| #[trigger]
            given(more, l) is Some <==> given(o, l) is Some && l != "@type"@ && l != "value"@ by {
            law_buffered_members(o, l);
            lemma_given_rest(all, p as int, l);
            lemma_given_rest(rest, q as int, l);
        }
        lemma_nothing_left(o, more, "@type"@, "value"@);
        lemma_payload(pool, index, url, message_from(pool, i, buffered(j), lenient));
    }
}

/// Where "@type" names `Empty`, there may be nothing else, and the `Any` has no
/// bytes.
pub proof fn law_any_empty(
    pool: DescriptorPool,
    index: MessageIndex,
    o: Seq<(Seq<char>, InputModel)>,
    lenient: bool,
    url: Seq<char>,
    i: MessageIndex,
)
    requires
        given(o, "@type"@) == Some(InputModel::Text(url)),
        any_type(pool, url) == Some(i),
        wkt_of(pool.message_seq()[i.0 as int].full_name@) == Some(WktKind::Empty),
    ensures
        if keys_among(o, "@type"@, "@type"@) {
            &&& any_from(pool, index, o, lenient) matches Ok(m)
            &&& m.pool == pool
            &&& m.index == index
            &&& m.unknown.len() == 0
            &&& text_at(m, 1) == url
            &&& bytes_at(m, 2).len() == 0
        } else {
            any_from(pool, index, o, lenient) is Err
        },
{
    let all = buffered_members(o);
    law_buffered_members(o, "@type"@);
    law_buffered(InputModel::Text(url));
    lemma_at_given(all, "@type"@);
    let p = member_at(all, "@type"@, 0)->Some_0;
    let rest = all.remove(p as int);
    assert forall|l: Seq<char>| #[trigger]
        given(rest, l) is Some <==> given(o, l) is Some && l != "@type"@ && l != "@type"@ by {
        law_buffered_members(o, l);
        lemma_given_rest(all, p as int, l);
    }
    lemma_nothing_left(o, rest, "@type"@, "@type"@);
    let x = empty_message(pool, i);
    assert(message_bytes(x).len() == 0);
    lemma_payload(pool, index, url, Ok(x));
}

/// The members are those of `o` but for the one under `k`: in the order of their
/// keys, each key with what was given for it last.
pub open spec fn members_without(
    o: Seq<(Seq<char>, InputModel)>,
    k: Seq<char>,
    rest: Seq<(Seq<char>, InputModel)>,
) -> bool {
    &&& members_sorted(rest)
    &&& forall|l: Seq<char>| #[trigger]
        given(rest, l) == if l == k {
            None
        } else {
            match given(o, l) {
                Some(j) => Some(buffered(j)),
                None => None,
            }
        }
}

/// Where "@type" names a plain type, the bytes of the `Any` are those of the
/// message of that type that the other members are read as.
pub proof fn law_any_members(
    pool: DescriptorPool,
    index: MessageIndex,
    o: Seq<(Seq<char>, InputModel)>,
    lenient: bool,
    url: Seq<char>,
    i: MessageIndex,
)
    requires
        given(o, "@type"@) == Some(InputModel::Text(url)),
        any_type(pool, url) == Some(i),
        wkt_of(pool.message_seq()[i.0 as int].full_name@) is None,
    ensures
        exists|rest: Seq<(Seq<char>, InputModel)>|
            #[trigger] members_without(o, "@type"@, rest) && holds_payload(
                any_from(pool, index, o, lenient),
                pool,
                index,
                url,
                message_from(pool, i, InputModel::Object(rest), lenient),
            ),
{
    let all = buffered_members(o);
    law_buffered_members(o, "@type"@);
    law_buffered(InputModel::Text(url));
    lemma_at_given(all, "@type"@);
    let p = member_at(all, "@type"@, 0)->Some_0;
    let rest = all.remove(p as int);
    lemma_given_rest(all, p as int, "@type"@);
    assert forall|l: Seq<char>| #[trigger]
        given(rest, l) == (if l == "@type"@ {
            None
        } else {
            match given(o, l) {
                Some(j) => Some(buffered(j)),
                None => None,
            }
        }) by {
        law_buffered_members(o, l);
        lemma_given_rest(all, p as int, l);
    }
    assert(members_without(o, "@type"@, rest));
    let inner = message_from(pool, i, InputModel::Object(rest), lenient);
    assert(inner == plain_from(empty_message(pool, i), rest, 0, lenient));
    lemma_payload(pool, index, url, inner);
}

/// An `Any` is read from an object, and from nothing else.
pub proof fn law_any_object(
    pool: DescriptorPool,
    index: MessageIndex,
    j: InputModel,
    lenient: bool,
)
    requires
        wkt_of(pool.message_seq()[index.0 as int].full_name@) == Some(WktKind::Any),
    ensures
        match j {
            InputModel::Object(o) => message_from(pool, index, j, lenient) == any_from(
                pool,
                index,
                o,
                lenient,
            ),
            _ => message_from(pool, index, j, lenient) is Err,
        },
{
}

// ── Outcomes ────────────────────────────────────────────────────────────────

/// What is read is the message that is said, or the failure.
pub proof fn law_reads_message(
    r: Result<DynamicMessage, JsonError>,
    m: Result<MessageModel, Seq<char>>,
)
    ensures
        reads_message(r, m) <==> match r {
            Ok(x) => m matches Ok(y) && x@ == y,
            Err(e) => m matches Err(y) && e.text@ == y,
        },
{
}

/// What is read is the element that is said, or the failure.
pub proof fn law_reads_element(
    r: Result<Value, JsonError>,
    m: Result<ValueModel, Seq<char>>,
)
    ensures
        reads_element(r, m) <==> match r {
            Ok(x) => m matches Ok(y) && x@ == y,
            Err(e) => m matches Err(y) && e.text@ == y,
        },
{
}

/// What a JSON value that is read stands for.
pub proof fn law_input_view(j: JsonInput)
    ensures
        match j {
            JsonInput::Null => j@ == InputModel::Null,
            JsonInput::Bool(b) => j@ == InputModel::Bool(b),
            JsonInput::Number(n) => j@ == InputModel::Number(n),
            JsonInput::Text(s) => j@ == InputModel::Text(s@),
            JsonInput::Array(a) => j@ matches InputModel::Array(x) && x.len() == a@.len()
                && forall|i: int| 0 <= i < x.len() ==> #[trigger] x[i] == a@[i]@,
            JsonInput::Object(o) => j@ matches InputModel::Object(x) && x.len() == o@.len()
                && forall|i: int|
                0 <= i < x.len() ==> (#[trigger] x[i]).0 == o@[i].0@ && x[i].1 == o@[i].1@,
        },
{
}

} // verus!
