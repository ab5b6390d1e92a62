//! Taking values into a message: values that fit stay as they are, messages of
//! another pool are rebuilt in this one, and everything else is refused.
use std::sync::Arc;
use vstd::prelude::*;
use crate::decode::{decoded, default_options};
use crate::descriptor::{
    is_same_pool, kind_linked, pool_of, share_pool, singular_linked, DescriptorPool, FieldKind,
    MessageIndex, ScalarType, SingularKind,
};
use crate::encode::message_bytes;
use crate::map::{normal_entries, MapValue};
use crate::shape::{
    field_mismatch, field_shape_mismatch, full_name, is_homed, key_fits, key_shape_name,
    map_key_matches_scalar, map_key_shape, shape_name, singular_fits, singular_mismatch,
    validate_singular_shape, validate_value_shape, value_fits, value_shape, MismatchModel,
    ValueShapeMismatch,
};
use crate::text::{decimal, decimal_text, join2, join3, same_text};
use crate::value::{
    entries_view, items_view, DynamicMessage, KeyModel, MapKey, MessageModel, Value, ValueModel,
};
use crate::wire::{decode_error_text, MAX_MESSAGE_BYTES};

verus! {

/// `r` is the executable form of `m`.
pub open spec fn adopts(
    r: Result<Value, ValueShapeMismatch>,
    m: Result<ValueModel, MismatchModel>,
) -> bool {
    match m {
        Ok(v) => r is Ok && r->Ok_0@ == v,
        Err(e) => r is Err && r->Err_0@ == e,
    }
}

// ── What is taken in ────────────────────────────────────────────────────────

/// A message rebuilt as type `index` of `pool`, by way of its bytes. Only a
/// message of the same full name, that can be encoded and that the pool can
/// decode, is rebuilt.
pub open spec fn rehomed(m: MessageModel, index: MessageIndex, pool: DescriptorPool) -> Result<
    MessageModel,
    MismatchModel,
> {
    let name = pool.message_seq()[index.0 as int].full_name@;
    let expected = "message "@ + name;
    let actual = "message "@ + full_name(m);
    if full_name(m) != name {
        Err(MismatchModel { expected, actual })
    } else if message_bytes(m).len() > MAX_MESSAGE_BYTES {
        Err(
            MismatchModel {
                expected,
                actual: actual + " exceeding the "@ + decimal_text(MAX_MESSAGE_BYTES as nat)
                    + " byte encode limit"@,
            },
        )
    } else {
        match decoded(pool, index, message_bytes(m), default_options()) {
            Ok(x) => Ok(x),
            Err(e) => Err(
                MismatchModel {
                    expected,
                    actual: actual + " this pool cannot decode ("@ + decode_error_text(e) + ")"@,
                },
            ),
        }
    }
}

/// A value taken in as an element of the kind.
pub open spec fn adopted_singular(kind: SingularKind, v: ValueModel, pool: DescriptorPool) -> Result<
    ValueModel,
    MismatchModel,
> {
    match (kind, v) {
        (SingularKind::Message(i), ValueModel::Message(m)) => if is_homed(m, pool, i) {
            Ok(v)
        } else {
            match rehomed(m, i, pool) {
                Ok(x) => Ok(ValueModel::Message(x)),
                Err(e) => Err(e),
            }
        },
        _ => match singular_mismatch(kind, v, pool) {
            None => Ok(v),
            Some(e) => Err(e),
        },
    }
}

/// The elements of a list, from the `i`-th on, taken in.
pub open spec fn adopted_items(
    kind: SingularKind,
    l: Seq<ValueModel>,
    pool: DescriptorPool,
    i: nat,
) -> Result<Seq<ValueModel>, MismatchModel>
    decreases l.len() - i,
{
    if i >= l.len() {
        Ok(Seq::empty())
    } else {
        match adopted_singular(kind, l[i as int], pool) {
            Err(e) => Err(
                field_mismatch(FieldKind::List(kind), pool, "list element "@ + e.actual),
            ),
            Ok(v) => match adopted_items(kind, l, pool, i + 1) {
                Err(e) => Err(e),
                Ok(rest) => Ok(seq![v] + rest),
            },
        }
    }
}

/// The entries of a map, from the `i`-th on, taken in.
pub open spec fn adopted_entries(
    key: ScalarType,
    value: SingularKind,
    e: Seq<(KeyModel, ValueModel)>,
    pool: DescriptorPool,
    i: nat,
) -> Result<Seq<(KeyModel, ValueModel)>, MismatchModel>
    decreases e.len() - i,
{
    let kind = FieldKind::Mapping { key, value };
    if i >= e.len() {
        Ok(Seq::empty())
    } else if !key_fits(key, e[i as int].0) {
        Err(field_mismatch(kind, pool, "map key "@ + key_shape_name(e[i as int].0)))
    } else {
        match adopted_singular(value, e[i as int].1, pool) {
            Err(x) => Err(field_mismatch(kind, pool, "map value "@ + x.actual)),
            Ok(v) => match adopted_entries(key, value, e, pool, i + 1) {
                Err(x) => Err(x),
                Ok(rest) => Ok(seq![(e[i as int].0, v)] + rest),
            },
        }
    }
}

/// A value taken in as the value of a field of the kind.
pub open spec fn adopted(kind: FieldKind, v: ValueModel, pool: DescriptorPool) -> Result<
    ValueModel,
    MismatchModel,
> {
    if value_fits(kind, v, pool) {
        Ok(v)
    } else {
        match kind {
            FieldKind::Singular(k) => adopted_singular(k, v, pool),
            FieldKind::List(k) => match v {
                ValueModel::List(l) => match adopted_items(k, l, pool, 0) {
                    Ok(x) => Ok(ValueModel::List(x)),
                    Err(e) => Err(e),
                },
                _ => Err(field_mismatch(kind, pool, shape_name(v))),
            },
            FieldKind::Mapping { key, value } => match v {
                ValueModel::Mapping(e) => match adopted_entries(key, value, e, pool, 0) {
                    Ok(x) => Ok(ValueModel::Mapping(normal_entries(x))),
                    Err(x) => Err(x),
                },
                _ => Err(field_mismatch(kind, pool, shape_name(v))),
            },
        }
    }
}

// ── The functions ───────────────────────────────────────────────────────────

/// Takes a value into `pool`: a value that fits is returned as it is, and a
/// message of another pool is rebuilt in this one.
pub fn adopt_value(kind: FieldKind, value: Value, pool: &Arc<DescriptorPool>) -> (r: Result<
    Value,
    ValueShapeMismatch,
>)
    requires
        kind_linked(**pool, kind),
    ensures
        adopts(r, adopted(kind, value@, **pool)),
        value_fits(kind, value@, **pool) ==> r is Ok && r->Ok_0 == value,
{
    if validate_value_shape(kind, &value, pool).is_ok() {
        return Ok(value);
    }
    match kind {
        FieldKind::Singular(k) => adopt_singular(k, value, pool),
        FieldKind::List(k) => match value {
            Value::List(items) => match adopt_items(k, items, pool) {
                Ok(adopted) => Ok(Value::List(adopted)),
                Err(e) => Err(e),
            },
            other => Err(field_shape_mismatch(kind, pool, value_shape(&other))),
        },
        FieldKind::Mapping { key, value: vk } => match value {
            Value::Mapping(map) => match adopt_entries(key, vk, map.into_entries(), pool) {
                Ok(entries) => Ok(Value::Mapping(MapValue::from_entries(entries))),
                Err(e) => Err(e),
            },
            other => Err(field_shape_mismatch(kind, pool, value_shape(&other))),
        },
    }
}

/// Turns a vector around.
fn turned<T>(v: Vec<T>) -> (r: Vec<T>)
    ensures
        r@.len() == v@.len(),
        forall|i: int| 0 <= i < r@.len() ==> #[trigger] r@[i] == v@[v@.len() - 1 - i],
{
    let ghost all = v@;
    let mut rest = v;
    let mut out: Vec<T> = Vec::new();
    while rest.len() > 0
        invariant
            rest@.len() + out@.len() == all.len(),
            rest@ == all.take(rest@.len() as int),
            forall|i: int| 0 <= i < out@.len() ==> #[trigger] out@[i] == all[all.len() - 1 - i],
        decreases rest@.len(),
    {
        if let Some(x) = rest.pop() {
            out.push(x);
        }
        assert(rest@ =~= all.take(rest@.len() as int));
    }
    out
}

fn adopt_items(kind: SingularKind, items: Vec<Value>, pool: &Arc<DescriptorPool>) -> (r: Result<
    Vec<Value>,
    ValueShapeMismatch,
>)
    requires
        singular_linked(**pool, kind),
    ensures
        match adopted_items(kind, items_view(items@), **pool, 0) {
            Ok(l) => r is Ok && items_view(r->Ok_0@) == l,
            Err(e) => r is Err && r->Err_0@ == e,
        },
{
    let ghost all = items@;
    let ghost l = items_view(items@);
    let ghost goal = adopted_items(kind, l, pool_of(pool), 0);
    let mut back = turned(items);
    let mut out: Vec<Value> = Vec::new();
    proof {
        if goal is Ok {
            assert(items_view(out@) + goal->Ok_0 =~= goal->Ok_0);
        }
    }
    while back.len() > 0
        invariant
            singular_linked(**pool, kind),
            l == items_view(all),
            back@.len() <= all.len(),
            forall|i: int| 0 <= i < back@.len() ==> #[trigger] back@[i] == all[all.len() - 1 - i],
            match adopted_items(kind, l, **pool, (l.len() - back@.len()) as nat) {
                Ok(rest) => goal == Ok::<Seq<ValueModel>, MismatchModel>(
                    items_view(out@) + rest,
                ),
                Err(e) => goal == Err::<Seq<ValueModel>, MismatchModel>(e),
            },
            goal == adopted_items(kind, items_view(items@), **pool, 0),
        decreases back@.len(),
    {
        let ghost n = (l.len() - back@.len()) as nat;
        if let Some(item) = back.pop() {
            assert(item@ == l[n as int]);
            match adopt_singular(kind, item, pool) {
                Ok(v) => {
                    let ghost was = items_view(out@);
                    let ghost v0 = v@;
                    out.push(v);
                    proof {
                        assert(items_view(out@) =~= was.push(v0));
                        if let Ok(rest) = adopted_items(kind, l, pool_of(pool), n + 1) {
                            assert(was + (seq![v0] + rest) =~= items_view(out@) + rest);
                        }
                    }
                },
                Err(e) => {
                    let actual = join2("list element ", e.actual.as_str());
                    return Err(field_shape_mismatch(FieldKind::List(kind), pool, actual));
                },
            }
        }
    }
    assert(items_view(out@) + Seq::<ValueModel>::empty() =~= items_view(out@));
    Ok(out)
}

fn adopt_entries(
    key: ScalarType,
    value: SingularKind,
    entries: Vec<(MapKey, Value)>,
    pool: &Arc<DescriptorPool>,
) -> (r: Result<Vec<(MapKey, Value)>, ValueShapeMismatch>)
    requires
        singular_linked(**pool, value),
    ensures
        match adopted_entries(key, value, entries_view(entries@), **pool, 0) {
            Ok(e) => r is Ok && entries_view(r->Ok_0@) == e,
            Err(x) => r is Err && r->Err_0@ == x,
        },
{
    let kind = FieldKind::Mapping { key, value };
    let ghost all = entries@;
    let ghost l = entries_view(entries@);
    let ghost goal = adopted_entries(key, value, l, pool_of(pool), 0);
    let mut back = turned(entries);
    let mut out: Vec<(MapKey, Value)> = Vec::new();
    proof {
        if goal is Ok {
            assert(entries_view(out@) + goal->Ok_0 =~= goal->Ok_0);
        }
    }
    while back.len() > 0
        invariant
            singular_linked(**pool, value),
            kind == (FieldKind::Mapping { key, value }),
            l == entries_view(all),
            back@.len() <= all.len(),
            forall|i: int| 0 <= i < back@.len() ==> #[trigger] back@[i] == all[all.len() - 1 - i],
            match adopted_entries(key, value, l, **pool, (l.len() - back@.len()) as nat) {
                Ok(rest) => goal == Ok::<Seq<(KeyModel, ValueModel)>, MismatchModel>(
                    entries_view(out@) + rest,
                ),
                Err(e) => goal == Err::<Seq<(KeyModel, ValueModel)>, MismatchModel>(e),
            },
            goal == adopted_entries(key, value, entries_view(entries@), **pool, 0),
        decreases back@.len(),
    {
        let ghost n = (l.len() - back@.len()) as nat;
        if let Some((k, item)) = back.pop() {
            assert((k@, item@) == l[n as int]);
            if !map_key_matches_scalar(key, &k) {
                let actual = join2("map key ", map_key_shape(&k));
                return Err(field_shape_mismatch(kind, pool, actual));
            }
            match adopt_singular(value, item, pool) {
                Ok(v) => {
                    let ghost was = entries_view(out@);
                    let ghost e0 = (k@, v@);
                    out.push((k, v));
                    proof {
                        assert(entries_view(out@) =~= was.push(e0));
                        if let Ok(rest) = adopted_entries(key, value, l, pool_of(pool), n + 1) {
                            assert(was + (seq![e0] + rest) =~= entries_view(out@) + rest);
                        }
                    }
                },
                Err(e) => {
                    let actual = join2("map value ", e.actual.as_str());
                    return Err(field_shape_mismatch(kind, pool, actual));
                },
            }
        }
    }
    assert(entries_view(out@) + Seq::<(KeyModel, ValueModel)>::empty() =~= entries_view(out@));
    Ok(out)
}

/// Takes an element into `pool`.
pub fn adopt_singular(kind: SingularKind, value: Value, pool: &Arc<DescriptorPool>) -> (r: Result<
    Value,
    ValueShapeMismatch,
>)
    requires
        singular_linked(**pool, kind),
    ensures
        adopts(r, adopted_singular(kind, value@, **pool)),
        singular_fits(kind, value@, **pool) ==> r is Ok && r->Ok_0 == value,
{
    match (kind, value) {
        (SingularKind::Message(i), Value::Message(m)) => {
            if is_same_pool(m.pool(), pool) && m.message_index() == i {
                return Ok(Value::Message(m));
            }
            match rehome_message(&m, i, pool) {
                Ok(x) => Ok(Value::Message(x)),
                Err(e) => Err(e),
            }
        },
        (_, v) => {
            match validate_singular_shape(kind, &v, pool) {
                Ok(()) => Ok(v),
                Err(e) => Err(e),
            }
        },
    }
}

/// Rebuilds a message of another pool as type `index` of `pool`.
///
/// The full name is what identifies a type across pools. What the target's
/// type does not recognize of the bytes ends up in its unknown fields.
fn rehome_message(m: &DynamicMessage, index: MessageIndex, pool: &Arc<DescriptorPool>) -> (r: Result<
    DynamicMessage,
    ValueShapeMismatch,
>)
    requires
        index.0 < pool.message_seq().len(),
    ensures
        match rehomed(m@, index, **pool) {
            Ok(x) => r is Ok && r->Ok_0@ == x,
            Err(e) => r is Err && r->Err_0@ == e,
        },
{
    let name = pool.message(index).full_name.as_str();
    let expected = join2("message ", name);
    let actual = join2("message ", m.message_descriptor().full_name.as_str());
    if !same_text(m.message_descriptor().full_name.as_str(), name) {
        return Err(ValueShapeMismatch { expected, actual });
    }
    let bytes = match m.try_encode_to_vec() {
        Ok(bytes) => bytes,
        Err(_) => {
            let front = join3(
                actual.as_str(),
                " exceeding the ",
                decimal(MAX_MESSAGE_BYTES as u64).as_str(),
            );
            let actual = join2(front.as_str(), " byte encode limit");
            return Err(ValueShapeMismatch { expected, actual });
        },
    };
    match DynamicMessage::decode(share_pool(pool), index, bytes.as_slice()) {
        Ok(x) => Ok(x),
        Err(e) => {
            let front = join3(actual.as_str(), " this pool cannot decode (", e.text().as_str());
            let actual = join2(front.as_str(), ")");
            Err(ValueShapeMismatch { expected, actual })
        },
    }
}

} // verus!
