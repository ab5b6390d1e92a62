//! Whether a value has the shape that a field asks for, and what is said where
//! it has not.
use std::sync::Arc;
use vstd::prelude::*;
use crate::descriptor::{
    is_same_pool, kind_linked, pool_of, singular_linked, DescriptorPool, FieldKind, MessageIndex,
    ScalarType, SingularKind,
};
use crate::text::{join2, join3};
use crate::value::{items_view, KeyModel, MapKey, MessageModel, Value, ValueModel};

verus! {

/// What a field asks for and what it was offered.
#[derive(Debug)]
pub struct ValueShapeMismatch {
    pub expected: String,
    pub actual: String,
}

/// What a `ValueShapeMismatch` stands for.
#[verifier::ext_equal]
pub struct MismatchModel {
    pub expected: Seq<char>,
    pub actual: Seq<char>,
}

impl ValueShapeMismatch {
    pub open spec fn view(&self) -> MismatchModel {
        MismatchModel { expected: self.expected@, actual: self.actual@ }
    }
}

/// `r` succeeds where there is no mismatch and reports the one there is.
pub open spec fn reports<T>(r: Result<T, ValueShapeMismatch>, m: Option<MismatchModel>) -> bool {
    match m {
        None => r is Ok,
        Some(x) => r is Err && r->Err_0@ == x,
    }
}

// ── Shapes ──────────────────────────────────────────────────────────────────

/// The value is one of the scalar type.
pub open spec fn scalar_fits(s: ScalarType, v: ValueModel) -> bool {
    match s {
        ScalarType::Double => v is F64,
        ScalarType::Float => v is F32,
        ScalarType::Int64 | ScalarType::Sfixed64 | ScalarType::Sint64 => v is I64,
        ScalarType::Uint64 | ScalarType::Fixed64 => v is U64,
        ScalarType::Int32 | ScalarType::Sfixed32 | ScalarType::Sint32 => v is I32,
        ScalarType::Uint32 | ScalarType::Fixed32 => v is U32,
        ScalarType::Bool => v is Bool,
        ScalarType::String => v is Text,
        ScalarType::Bytes => v is Bytes,
    }
}

/// The key is one of the scalar type. Floating-point numbers and bytes are no
/// keys.
pub open spec fn key_fits(s: ScalarType, k: KeyModel) -> bool {
    match s {
        ScalarType::Bool => k is Bool,
        ScalarType::Int32 | ScalarType::Sint32 | ScalarType::Sfixed32 => k is I32,
        ScalarType::Int64 | ScalarType::Sint64 | ScalarType::Sfixed64 => k is I64,
        ScalarType::Uint32 | ScalarType::Fixed32 => k is U32,
        ScalarType::Uint64 | ScalarType::Fixed64 => k is U64,
        ScalarType::String => k is Text,
        ScalarType::Double | ScalarType::Float | ScalarType::Bytes => false,
    }
}

/// The message is of type `index` in `pool` itself, not in another pool.
pub open spec fn is_homed(m: MessageModel, pool: DescriptorPool, index: MessageIndex) -> bool {
    m.pool == pool && m.index == index
}

/// The value is an element of the kind.
pub open spec fn singular_fits(kind: SingularKind, v: ValueModel, pool: DescriptorPool) -> bool {
    match kind {
        SingularKind::Scalar(s) => scalar_fits(s, v),
        SingularKind::Enum(_) => v is EnumNumber,
        SingularKind::Message(i) => v matches ValueModel::Message(m) && is_homed(
            m,
            pool,
            i,
        ),
    }
}

/// The value is one that a field of the kind holds.
pub open spec fn value_fits(kind: FieldKind, v: ValueModel, pool: DescriptorPool) -> bool {
    match kind {
        FieldKind::Singular(k) => singular_fits(k, v, pool),
        FieldKind::List(k) => v matches ValueModel::List(l) && forall|i: int|
            0 <= i < l.len() ==> singular_fits(k, #[trigger] l[i], pool),
        FieldKind::Mapping { key, value } => v matches ValueModel::Mapping(e) && forall|i: int|
            0 <= i < e.len() ==> key_fits(key, (#[trigger] e[i]).0) && singular_fits(
                value,
                e[i].1,
                pool,
            ),
    }
}

// ── Names of shapes ─────────────────────────────────────────────────────────

/// The name of a scalar type in the schema language.
pub open spec fn scalar_name(s: ScalarType) -> Seq<char> {
    match s {
        ScalarType::Double => "double"@,
        ScalarType::Float => "float"@,
        ScalarType::Int64 => "int64"@,
        ScalarType::Uint64 => "uint64"@,
        ScalarType::Int32 => "int32"@,
        ScalarType::Fixed64 => "fixed64"@,
        ScalarType::Fixed32 => "fixed32"@,
        ScalarType::Bool => "bool"@,
        ScalarType::String => "string"@,
        ScalarType::Bytes => "bytes"@,
        ScalarType::Uint32 => "uint32"@,
        ScalarType::Sfixed32 => "sfixed32"@,
        ScalarType::Sfixed64 => "sfixed64"@,
        ScalarType::Sint32 => "sint32"@,
        ScalarType::Sint64 => "sint64"@,
    }
}

/// The name of a kind of element.
pub open spec fn singular_name(kind: SingularKind, pool: DescriptorPool) -> Seq<char> {
    match kind {
        SingularKind::Scalar(s) => scalar_name(s),
        SingularKind::Enum(e) => "enum "@ + pool.enum_seq()[e.0 as int].full_name@,
        SingularKind::Message(m) => "message "@ + pool.message_seq()[m.0 as int].full_name@,
    }
}

/// The name of a kind of field.
pub open spec fn kind_name(kind: FieldKind, pool: DescriptorPool) -> Seq<char> {
    match kind {
        FieldKind::Singular(k) => singular_name(k, pool),
        FieldKind::List(k) => "list<"@ + singular_name(k, pool) + ">"@,
        FieldKind::Mapping { key, value } => "map<"@ + scalar_name(key) + ", "@ + singular_name(
            value,
            pool,
        ) + ">"@,
    }
}

/// The full name of a message's type.
pub open spec fn full_name(m: MessageModel) -> Seq<char> {
    m.pool.message_seq()[m.index.0 as int].full_name@
}

/// The name of a value's shape.
pub open spec fn shape_name(v: ValueModel) -> Seq<char> {
    match v {
        ValueModel::Bool(_) => "bool"@,
        ValueModel::I32(_) => "i32"@,
        ValueModel::I64(_) => "i64"@,
        ValueModel::U32(_) => "u32"@,
        ValueModel::U64(_) => "u64"@,
        ValueModel::F32(_) => "f32"@,
        ValueModel::F64(_) => "f64"@,
        ValueModel::Text(_) => "string"@,
        ValueModel::Bytes(_) => "bytes"@,
        ValueModel::EnumNumber(_) => "enum number"@,
        ValueModel::Message(m) => "message "@ + full_name(m),
        ValueModel::List(_) => "list"@,
        ValueModel::Mapping(_) => "map"@,
    }
}

/// The name of a key's shape.
pub open spec fn key_shape_name(k: KeyModel) -> Seq<char> {
    match k {
        KeyModel::Bool(_) => "bool"@,
        KeyModel::I32(_) => "i32"@,
        KeyModel::I64(_) => "i64"@,
        KeyModel::U32(_) => "u32"@,
        KeyModel::U64(_) => "u64"@,
        KeyModel::Text(_) => "string"@,
    }
}

// ── Mismatches ──────────────────────────────────────────────────────────────

/// What is wrong with a value as an element of the kind.
pub open spec fn singular_mismatch(
    kind: SingularKind,
    v: ValueModel,
    pool: DescriptorPool,
) -> Option<MismatchModel> {
    if singular_fits(kind, v, pool) {
        None
    } else {
        Some(MismatchModel { expected: singular_name(kind, pool), actual: shape_name(v) })
    }
}

/// A mismatch of a field of the kind.
pub open spec fn field_mismatch(
    kind: FieldKind,
    pool: DescriptorPool,
    actual: Seq<char>,
) -> MismatchModel {
    MismatchModel { expected: kind_name(kind, pool), actual }
}

/// What is wrong with the first element, from `i` on, that is wrong.
pub open spec fn list_mismatch(
    kind: SingularKind,
    l: Seq<ValueModel>,
    pool: DescriptorPool,
    i: nat,
) -> Option<MismatchModel>
    decreases l.len() - i,
{
    if i >= l.len() {
        None
    } else if !singular_fits(kind, l[i as int], pool) {
        Some(
            field_mismatch(
                FieldKind::List(kind),
                pool,
                "list element "@ + shape_name(l[i as int]),
            ),
        )
    } else {
        list_mismatch(kind, l, pool, i + 1)
    }
}

/// What is wrong with the first entry, from `i` on, that is wrong: its key, or
/// its value under a key that is right.
pub open spec fn map_mismatch(
    key: ScalarType,
    value: SingularKind,
    e: Seq<(KeyModel, ValueModel)>,
    pool: DescriptorPool,
    i: nat,
) -> Option<MismatchModel>
    decreases e.len() - i,
{
    if i >= e.len() {
        None
    } else if !key_fits(key, e[i as int].0) {
        Some(
            field_mismatch(
                FieldKind::Mapping { key, value },
                pool,
                "map key "@ + key_shape_name(e[i as int].0),
            ),
        )
    } else if !singular_fits(value, e[i as int].1, pool) {
        Some(
            field_mismatch(
                FieldKind::Mapping { key, value },
                pool,
                "map value "@ + shape_name(e[i as int].1),
            ),
        )
    } else {
        map_mismatch(key, value, e, pool, i + 1)
    }
}

/// What is wrong with a value as the value of a field of the kind.
pub open spec fn value_mismatch(
    kind: FieldKind,
    v: ValueModel,
    pool: DescriptorPool,
) -> Option<MismatchModel> {
    match kind {
        FieldKind::Singular(k) => singular_mismatch(k, v, pool),
        FieldKind::List(k) => match v {
            ValueModel::List(l) => list_mismatch(k, l, pool, 0),
            _ => Some(field_mismatch(kind, pool, shape_name(v))),
        },
        FieldKind::Mapping { key, value } => match v {
            ValueModel::Mapping(e) => map_mismatch(key, value, e, pool, 0),
            _ => Some(field_mismatch(kind, pool, shape_name(v))),
        },
    }
}

proof fn lemma_list_mismatch(kind: SingularKind, l: Seq<ValueModel>, pool: DescriptorPool, i: nat)
    ensures
        list_mismatch(kind, l, pool, i) is None <==> forall|k: int|
            i <= k < l.len() ==> singular_fits(kind, #[trigger] l[k], pool),
    decreases l.len() - i,
{
    if i < l.len() {
        lemma_list_mismatch(kind, l, pool, i + 1);
        if singular_fits(kind, l[i as int], pool) && list_mismatch(kind, l, pool, i + 1) is None {
            assert forall|k: int| i <= k < l.len() implies singular_fits(
                kind,
                #[trigger] l[k],
                pool,
            ) by {
                if k > i {
                    assert(i + 1 <= k);
                }
            }
        }
    }
}

proof fn lemma_map_mismatch(
    key: ScalarType,
    value: SingularKind,
    e: Seq<(KeyModel, ValueModel)>,
    pool: DescriptorPool,
    i: nat,
)
    ensures
        map_mismatch(key, value, e, pool, i) is None <==> forall|k: int|
            i <= k < e.len() ==> key_fits(key, (#[trigger] e[k]).0) && singular_fits(
                value,
                e[k].1,
                pool,
            ),
    decreases e.len() - i,
{
    if i < e.len() {
        lemma_map_mismatch(key, value, e, pool, i + 1);
        if key_fits(key, e[i as int].0) && singular_fits(value, e[i as int].1, pool)
            && map_mismatch(key, value, e, pool, i + 1) is None {
            assert forall|k: int| i <= k < e.len() implies key_fits(key, (#[trigger] e[k]).0)
                && singular_fits(value, e[k].1, pool) by {
                if k > i {
                    assert(i + 1 <= k);
                }
            }
        }
    }
}

/// A value has no mismatch exactly where it fits.
pub proof fn lemma_value_mismatch(kind: FieldKind, v: ValueModel, pool: DescriptorPool)
    ensures
        value_mismatch(kind, v, pool) is None <==> value_fits(kind, v, pool),
{
    match (kind, v) {
        (FieldKind::List(k), ValueModel::List(l)) => {
            lemma_list_mismatch(k, l, pool, 0);
        },
        (FieldKind::Mapping { key, value }, ValueModel::Mapping(e)) => {
            lemma_map_mismatch(key, value, e, pool, 0);
        },
        _ => {},
    }
}

// ── The functions ───────────────────────────────────────────────────────────

/// Whether a value is one of the scalar type.
pub fn value_matches_scalar(s: ScalarType, value: &Value) -> (r: bool)
    ensures
        r == scalar_fits(s, value@),
{
    match s {
        ScalarType::Double => matches!(value, Value::F64(_)),
        ScalarType::Float => matches!(value, Value::F32(_)),
        ScalarType::Int64 | ScalarType::Sfixed64 | ScalarType::Sint64 => matches!(
            value,
            Value::I64(_)
        ),
        ScalarType::Uint64 | ScalarType::Fixed64 => matches!(value, Value::U64(_)),
        ScalarType::Int32 | ScalarType::Sfixed32 | ScalarType::Sint32 => matches!(
            value,
            Value::I32(_)
        ),
        ScalarType::Uint32 | ScalarType::Fixed32 => matches!(value, Value::U32(_)),
        ScalarType::Bool => matches!(value, Value::Bool(_)),
        ScalarType::String => matches!(value, Value::String(_)),
        ScalarType::Bytes => matches!(value, Value::Bytes(_)),
    }
}

/// Whether a map key is one of the scalar type.
pub fn map_key_matches_scalar(s: ScalarType, key: &MapKey) -> (r: bool)
    ensures
        r == key_fits(s, key@),
{
    match s {
        ScalarType::Bool => matches!(key, MapKey::Bool(_)),
        ScalarType::Int32 | ScalarType::Sint32 | ScalarType::Sfixed32 => matches!(
            key,
            MapKey::I32(_)
        ),
        ScalarType::Int64 | ScalarType::Sint64 | ScalarType::Sfixed64 => matches!(
            key,
            MapKey::I64(_)
        ),
        ScalarType::Uint32 | ScalarType::Fixed32 => matches!(key, MapKey::U32(_)),
        ScalarType::Uint64 | ScalarType::Fixed64 => matches!(key, MapKey::U64(_)),
        ScalarType::String => matches!(key, MapKey::String(_)),
        ScalarType::Double | ScalarType::Float | ScalarType::Bytes => false,
    }
}

/// The name of a scalar type in the schema language.
pub fn scalar_type_name(s: ScalarType) -> (r: &'static str)
    ensures
        r@ == scalar_name(s),
{
    match s {
        ScalarType::Double => "double",
        ScalarType::Float => "float",
        ScalarType::Int64 => "int64",
        ScalarType::Uint64 => "uint64",
        ScalarType::Int32 => "int32",
        ScalarType::Fixed64 => "fixed64",
        ScalarType::Fixed32 => "fixed32",
        ScalarType::Bool => "bool",
        ScalarType::String => "string",
        ScalarType::Bytes => "bytes",
        ScalarType::Uint32 => "uint32",
        ScalarType::Sfixed32 => "sfixed32",
        ScalarType::Sfixed64 => "sfixed64",
        ScalarType::Sint32 => "sint32",
        ScalarType::Sint64 => "sint64",
    }
}

/// The name of a kind of element.
pub fn singular_kind_name(kind: SingularKind, pool: &DescriptorPool) -> (r: String)
    requires
        singular_linked(*pool, kind),
    ensures
        r@ == singular_name(kind, *pool),
{
    match kind {
        SingularKind::Scalar(s) => scalar_type_name(s).to_owned(),
        SingularKind::Enum(e) => join2("enum ", pool.enumeration(e).full_name.as_str()),
        SingularKind::Message(m) => join2("message ", pool.message(m).full_name.as_str()),
    }
}

/// The name of a kind of field.
pub fn field_kind_name(kind: FieldKind, pool: &DescriptorPool) -> (r: String)
    requires
        kind_linked(*pool, kind),
    ensures
        r@ == kind_name(kind, *pool),
{
    match kind {
        FieldKind::Singular(k) => singular_kind_name(k, pool),
        FieldKind::List(k) => join3("list<", singular_kind_name(k, pool).as_str(), ">"),
        FieldKind::Mapping { key, value } => {
            let front = join3("map<", scalar_type_name(key), ", ");
            join3(front.as_str(), singular_kind_name(value, pool).as_str(), ">")
        },
    }
}

/// The name of a value's shape.
pub fn value_shape(value: &Value) -> (r: String)
    ensures
        r@ == shape_name(value@),
{
    match value {
        Value::Bool(_) => "bool".to_owned(),
        Value::I32(_) => "i32".to_owned(),
        Value::I64(_) => "i64".to_owned(),
        Value::U32(_) => "u32".to_owned(),
        Value::U64(_) => "u64".to_owned(),
        Value::F32(_) => "f32".to_owned(),
        Value::F64(_) => "f64".to_owned(),
        Value::String(_) => "string".to_owned(),
        Value::Bytes(_) => "bytes".to_owned(),
        Value::EnumNumber(_) => "enum number".to_owned(),
        Value::Message(m) => join2("message ", m.message_descriptor().full_name.as_str()),
        Value::List(_) => "list".to_owned(),
        Value::Mapping(_) => "map".to_owned(),
    }
}

/// The name of a key's shape.
pub fn map_key_shape(key: &MapKey) -> (r: &'static str)
    ensures
        r@ == key_shape_name(key@),
{
    match key {
        MapKey::Bool(_) => "bool",
        MapKey::I32(_) => "i32",
        MapKey::I64(_) => "i64",
        MapKey::U32(_) => "u32",
        MapKey::U64(_) => "u64",
        MapKey::String(_) => "string",
    }
}

/// A mismatch of a field of the kind.
pub fn field_shape_mismatch(kind: FieldKind, pool: &DescriptorPool, actual: String) -> (r:
    ValueShapeMismatch)
    requires
        kind_linked(*pool, kind),
    ensures
        r@ == field_mismatch(kind, *pool, actual@),
{
    ValueShapeMismatch { expected: field_kind_name(kind, pool), actual }
}

/// Checks that a value is an element of the kind. A message must be of the
/// kind's type in `pool` itself; an enum may be any number.
pub fn validate_singular_shape(kind: SingularKind, value: &Value, pool: &Arc<DescriptorPool>) -> (r:
    Result<(), ValueShapeMismatch>)
    requires
        singular_linked(**pool, kind),
    ensures
        reports(r, singular_mismatch(kind, value@, **pool)),
{
    let matches = match kind {
        SingularKind::Scalar(s) => value_matches_scalar(s, value),
        SingularKind::Enum(_) => matches!(value, Value::EnumNumber(_)),
        SingularKind::Message(i) => match value {
            Value::Message(m) => is_same_pool(m.pool(), pool) && m.message_index() == i,
            _ => false,
        },
    };
    if matches {
        Ok(())
    } else {
        Err(
            ValueShapeMismatch {
                expected: singular_kind_name(kind, pool),
                actual: value_shape(value),
            },
        )
    }
}

/// Checks that a value is one that a field of the kind holds.
pub fn validate_value_shape(kind: FieldKind, value: &Value, pool: &Arc<DescriptorPool>) -> (r:
    Result<(), ValueShapeMismatch>)
    requires
        kind_linked(**pool, kind),
    ensures
        reports(r, value_mismatch(kind, value@, **pool)),
        r is Ok <==> value_fits(kind, value@, **pool),
{
    proof {
        lemma_value_mismatch(kind, value@, pool_of(pool));
    }
    match kind {
        FieldKind::Singular(k) => validate_singular_shape(k, value, pool),
        FieldKind::List(k) => match value {
            Value::List(items) => {
                let mut i: usize = 0;
                while i < items.len()
                    invariant
                        kind == FieldKind::List(k),
                        kind_linked(**pool, kind),
                        value@ == ValueModel::List(items_view(items@)),
                        i <= items@.len(),
                        value_mismatch(kind, value@, **pool) == list_mismatch(
                            k,
                            items_view(items@),
                            **pool,
                            i as nat,
                        ),
                        value_mismatch(kind, value@, **pool) is None <==> value_fits(
                            kind,
                            value@,
                            **pool,
                        ),
                    decreases items@.len() - i,
                {
                    if let Err(err) = validate_singular_shape(k, &items[i], pool) {
                        let actual = join2("list element ", err.actual.as_str());
                        return Err(field_shape_mismatch(kind, pool, actual));
                    }
                    i = i + 1;
                }
                Ok(())
            },
            _ => Err(field_shape_mismatch(kind, pool, value_shape(value))),
        },
        FieldKind::Mapping { key, value: vk } => match value {
            Value::Mapping(m) => {
                let mut i: usize = 0;
                while i < m.len()
                    invariant
                        kind == (FieldKind::Mapping { key, value: vk }),
                        kind_linked(**pool, kind),
                        value@ == ValueModel::Mapping(m@),
                        i <= m@.len(),
                        value_mismatch(kind, value@, **pool) == map_mismatch(
                            key,
                            vk,
                            m@,
                            **pool,
                            i as nat,
                        ),
                        value_mismatch(kind, value@, **pool) is None <==> value_fits(
                            kind,
                            value@,
                            **pool,
                        ),
                    decreases m@.len() - i,
                {
                    let (map_key, map_value) = m.entry(i);
                    if !map_key_matches_scalar(key, map_key) {
                        let actual = join2("map key ", map_key_shape(map_key));
                        return Err(field_shape_mismatch(kind, pool, actual));
                    }
                    if let Err(err) = validate_singular_shape(vk, map_value, pool) {
                        let actual = join2("map value ", err.actual.as_str());
                        return Err(field_shape_mismatch(kind, pool, actual));
                    }
                    i = i + 1;
                }
                Ok(())
            },
            _ => Err(field_shape_mismatch(kind, pool, value_shape(value))),
        },
    }
}

/// Whether a value is one that a field of the kind holds.
pub fn value_matches_field_shape(kind: FieldKind, value: &Value, pool: &Arc<DescriptorPool>) -> (r:
    bool)
    requires
        kind_linked(**pool, kind),
    ensures
        r == value_fits(kind, value@, **pool),
{
    validate_value_shape(kind, value, pool).is_ok()
}

} // verus!
