//! What reading, setting, taking in, comparing and wrapping give.
use vstd::prelude::*;
use crate::adopt::{adopted, adopted_entries, adopted_items, adopted_singular, adopts};
use crate::any::{bytes_at, packed, text_at, unpacked, wraps, AnyError, AnyErrorModel};
use crate::decode::{decoded, decodes, default_options, merges};
use crate::decode_laws::{holds_instead, last_under, law_last_entry, law_siblings};
use crate::descriptor::{
    field_of, index_of, lemma_field_of, lemma_message_at, pool_linked, DescriptorPool,
    FieldDescriptor, FieldKind, ScalarType, SingularKind,
};
use crate::encode::message_bytes;
use crate::equal::{is_redacted, same_message, same_value};
use crate::kept::{lemma_among_get, lemma_get_among, lemma_put_kept};
use crate::laws::{law_adopted, lemma_put_reads};
use crate::map::entries_sorted;
use crate::merge::Budget;
use crate::merge_kept::lemma_del_get;
use crate::message::{
    changes, clear_field, field_value, has_field, set_field, set_fields, ReflectError,
    ReflectErrorModel, ValueRef,
};
use crate::scalar::{is_default, reads_value};
use crate::shape::{
    full_name, key_fits, key_shape_name, kind_name, reports, scalar_fits, scalar_name, shape_name,
    singular_fits, singular_name, value_fits, value_mismatch, MismatchModel, ValueShapeMismatch,
};
use crate::text::last_segment;
use crate::value::{
    entries_view, field_del, field_get, field_put, field_replace, fields_sorted, items_view,
    lemma_put_get, DynamicMessage, KeyModel, MapKey, MessageModel, Value, ValueModel,
};
use crate::wire::DecodeError;

verus! {

// ── Fields by number ────────────────────────────────────────────────────────

/// The value under a number is that of the field that has it.
pub proof fn law_field_get(fields: Seq<(u32, ValueModel)>, n: u32)
    requires
        fields_sorted(fields),
    ensures
        forall|i: int|
            0 <= i < fields.len() && (#[trigger] fields[i]).0 == n ==> field_get(fields, n) == Some(
                fields[i].1,
            ),
        (forall|i: int| 0 <= i < fields.len() ==> (#[trigger] fields[i]).0 != n) ==> field_get(
            fields,
            n,
        ) is None,
{
    assert forall|i: int| 0 <= i < fields.len() && (#[trigger] fields[i]).0 == n implies field_get(
        fields,
        n,
    ) == Some(fields[i].1) by {
        lemma_among_get(fields, i);
    }
    lemma_get_among(fields, n);
}

/// Putting a value under a number changes what is there under it and nothing
/// else; so does taking it away.
pub proof fn law_field_put(fields: Seq<(u32, ValueModel)>, n: u32, v: ValueModel, k: u32)
    requires
        fields_sorted(fields),
    ensures
        field_get(field_put(fields, n, v), n) == Some(v),
        k != n ==> field_get(field_put(fields, n, v), k) == field_get(fields, k),
        fields_sorted(field_put(fields, n, v)),
        field_get(field_del(fields, n), n) is None,
        k != n ==> field_get(field_del(fields, n), k) == field_get(fields, k),
        fields_sorted(field_del(fields, n)),
        field_get(fields, n) is Some ==> field_replace(fields, n, v) == field_put(fields, n, v),
{
    lemma_put_get(fields, n, v, n);
    lemma_put_get(fields, n, v, k);
    lemma_put_kept(fields, n, v);
    crate::kept::lemma_del_kept(fields, n);
    lemma_get_among(field_del(fields, n), n);
    if k != n {
        lemma_del_get(fields, n, k);
    }
}

// ── Reading ─────────────────────────────────────────────────────────────────

/// A field reads as the value that it holds. Where it holds none, a scalar or an
/// enum number reads as zero, false or empty; a message as one of its type with
/// nothing set; a list or a map as one without elements.
pub proof fn law_read_default(m: MessageModel, f: FieldDescriptor)
    ensures
        field_get(m.fields, f.number) matches Some(v) ==> field_value(m, f) == v,
        field_get(m.fields, f.number) is None ==> match f.kind {
            FieldKind::Singular(SingularKind::Scalar(s)) => is_default(field_value(m, f))
                && scalar_fits(s, field_value(m, f)),
            FieldKind::Singular(SingularKind::Enum(_)) => field_value(m, f)
                == ValueModel::EnumNumber(0),
            FieldKind::Singular(SingularKind::Message(i)) => field_value(m, f)
                matches ValueModel::Message(x) && x.pool == m.pool && x.index == i
                && x.fields.len() == 0 && x.unknown.len() == 0,
            FieldKind::List(_) => field_value(m, f) matches ValueModel::List(l) && l.len() == 0,
            FieldKind::Mapping { key, value } => field_value(m, f)
                matches ValueModel::Mapping(e) && e.len() == 0,
        },
        field_get(m.fields, f.number) is None ==> match field_value(m, f) {
            ValueModel::Bool(x) => !x,
            ValueModel::I32(x) => x == 0,
            ValueModel::I64(x) => x == 0,
            ValueModel::U32(x) => x == 0,
            ValueModel::U64(x) => x == 0,
            ValueModel::F32(x) => x == 0,
            ValueModel::F64(x) => x == 0,
            ValueModel::Text(x) => x.len() == 0,
            ValueModel::Bytes(x) => x.len() == 0,
            ValueModel::EnumNumber(x) => x == 0,
            _ => true,
        },
{
}

/// A field is set where it holds a list or a map with elements; a value that is
/// no default; or, if it tracks presence, any other value.
pub proof fn law_has(m: MessageModel, f: FieldDescriptor)
    ensures
        field_get(m.fields, f.number) is None ==> !has_field(m, f),
        field_get(m.fields, f.number) matches Some(v) ==> match v {
            ValueModel::List(l) => has_field(m, f) <==> l.len() > 0,
            ValueModel::Mapping(e) => has_field(m, f) <==> e.len() > 0,
            ValueModel::Message(_) => has_field(m, f),
            _ => has_field(m, f) <==> f.presence is Explicit || f.presence is LegacyRequired
                || !is_default(v),
        },
{
}

/// The fields that are set and have a descriptor are those that are walked, in
/// the order of the message, each with its descriptor and its value.
pub proof fn law_walk(m: MessageModel, i: nat)
    ensures
        forall|k: int|
            0 <= k < set_fields(m, i).len() ==> walked_from(m, i, #[trigger] set_fields(m, i)[k]),
        forall|j: int|
            i <= j < m.fields.len() && (field_of(
                m.pool,
                m.index,
                (#[trigger] m.fields[j]).0,
            ) matches Some(fd) && has_field(m, fd)) ==> exists|k: int|
                0 <= k < set_fields(m, i).len() && walked(m, j, #[trigger] set_fields(m, i)[k]),
        fields_sorted(m.fields) && pool_linked(m.pool) && m.index.0 < m.pool.message_seq().len()
            ==> forall|k: int, l: int|
            0 <= k < l < set_fields(m, i).len() ==> (#[trigger] set_fields(m, i)[k]).0.number < (
            #[trigger] set_fields(m, i)[l]).0.number,
    decreases m.fields.len() - i,
{
    let s = set_fields(m, i);
    if i < m.fields.len() {
        law_walk(m, i + 1);
        let t = set_fields(m, i + 1);
        let f = m.fields[i as int];
        let shown = field_of(m.pool, m.index, f.0) matches Some(fd) && has_field(m, fd);
        let off: int = if shown {
            1
        } else {
            0
        };
        assert(s.len() == t.len() + off);
        assert forall|k: int| 0 <= k < t.len() implies s[k + off] == #[trigger] t[k] by {}
        assert forall|k: int| 0 <= k < s.len() implies walked_from(m, i, #[trigger] s[k]) by {
            if k < off {
                assert(walked(m, i as int, s[k]));
            } else {
                assert(walked_from(m, i + 1, t[k - off]));
                let j = choose|j: int|
                    i + 1 <= j < m.fields.len() && #[trigger] walked(m, j, t[k - off]);
                assert(walked(m, j, s[k]));
            }
        }
        assert forall|j: int|
            i <= j < m.fields.len() && (field_of(
                m.pool,
                m.index,
                (#[trigger] m.fields[j]).0,
            ) matches Some(fd) && has_field(m, fd)) implies exists|k: int|
            0 <= k < s.len() && walked(m, j, #[trigger] s[k]) by {
            if j == i {
                assert(walked(m, j, s[0]));
            } else {
                let k = choose|k: int| 0 <= k < t.len() && walked(m, j, #[trigger] t[k]);
                assert(walked(m, j, s[k + off]));
            }
        }
        if fields_sorted(m.fields) && pool_linked(m.pool) && m.index.0
            < m.pool.message_seq().len() {
            assert forall|k: int, l: int| 0 <= k < l < s.len() implies (
            #[trigger] s[k]).0.number < (#[trigger] s[l]).0.number by {
                assert(walked_from(m, i + 1, t[l - off]));
                if k < off {
                    let j = choose|j: int|
                        i + 1 <= j < m.fields.len() && #[trigger] walked(m, j, t[l - off]);
                    assert(m.fields[i as int].0 < m.fields[j].0);
                    lemma_field_of(m.pool, m.index, m.fields[j].0);
                    lemma_field_of(m.pool, m.index, f.0);
                } else {
                    let d = t[k - off];
                }
            }
        }
    }
}

/// What is walked of a field from the `i`-th on.
pub open spec fn walked_from(
    m: MessageModel,
    i: nat,
    e: (FieldDescriptor, ValueModel),
) -> bool {
    exists|j: int| i <= j < m.fields.len() && #[trigger] walked(m, j, e)
}

/// What is walked of the `j`-th field.
pub open spec fn walked(m: MessageModel, j: int, e: (FieldDescriptor, ValueModel)) -> bool {
    field_of(m.pool, m.index, m.fields[j].0) == Some(e.0) && m.fields[j].1 == e.1 && has_field(
        m,
        e.0,
    )
}

// ── Setting and clearing ────────────────────────────────────────────────────

/// A field of the message takes every value that fits it, and holds it then; the
/// other members of its oneof are gone, and everything else is as it was. A
/// descriptor that is not the message's own is refused by name.
pub proof fn law_set(m: MessageModel, field: FieldDescriptor, v: ValueModel)
    requires
        pool_linked(m.pool),
        m.index.0 < m.pool.message_seq().len(),
        fields_sorted(m.fields),
    ensures
        field_of(m.pool, m.index, field.number) == Some(field) && value_fits(field.kind, v, m.pool)
            ==> (set_field(m, field, v) matches Ok(x) && holds_instead(m, field, v, x)),
        field_of(m.pool, m.index, field.number) == Some(field) ==> {
            &&& adopted(field.kind, v, m.pool) matches Ok(w) ==> (set_field(
                m,
                field,
                v,
            ) matches Ok(x) && holds_instead(m, field, w, x))
            &&& adopted(field.kind, v, m.pool) matches Err(e) ==> (set_field(
                m,
                field,
                v,
            ) matches Err(ReflectErrorModel::WrongValueKind { message, field: f, expected, actual })
                && message == full_name(m) && f == field.name@ && expected == e.expected && actual
                == e.actual)
        },
        field_of(m.pool, m.index, field.number) != Some(field) ==> (set_field(
            m,
            field,
            v,
        ) matches Err(ReflectErrorModel::FieldNotMember { message, field: f }) && message
            == full_name(m) && f == field.name@),
{
    law_adopted(field.kind, v, m.pool);
    if let Ok(x) = set_field(m, field, v) {
        let w = adopted(field.kind, v, m.pool)->Ok_0;
        lemma_put_reads(m, field.oneof_index, field.number, w, field.number);
        assert forall|n: u32| n != field.number implies #[trigger] field_get(x.fields, n) == (
        if crate::decode_laws::sibling(m.pool, m.index, field, n) {
            None
        } else {
            field_get(m.fields, n)
        }) by {
            lemma_put_reads(m, field.oneof_index, field.number, w, n);
            law_siblings(m.pool, m.index, field, n);
        }
    }
}

/// Clearing a field takes its value away and nothing else; a descriptor that is
/// not the message's own is refused by name.
pub proof fn law_clear(m: MessageModel, field: FieldDescriptor, n: u32)
    requires
        fields_sorted(m.fields),
    ensures
        match clear_field(m, field) {
            Ok(x) => {
                &&& field_of(m.pool, m.index, field.number) == Some(field)
                &&& field_get(x.fields, field.number) is None
                &&& n != field.number ==> field_get(x.fields, n) == field_get(m.fields, n)
                &&& x.unknown == m.unknown
                &&& x.pool == m.pool
                &&& x.index == m.index
            },
            Err(e) => {
                &&& field_of(m.pool, m.index, field.number) != Some(field)
                &&& e == (ReflectErrorModel::FieldNotMember {
                    message: full_name(m),
                    field: field.name@,
                })
            },
        },
{
    law_field_put(m.fields, field.number, ValueModel::Bool(true), n);
}

// ── Taking values in ────────────────────────────────────────────────────────

/// A scalar or an enum number is taken in as it is where it fits, and refused
/// where it does not. A message of the type itself is taken in as it is; one of
/// another pool where it has the full name, as the message that its bytes are in
/// this pool.
pub proof fn law_take_in(kind: SingularKind, v: ValueModel, pool: DescriptorPool)
    ensures
        singular_fits(kind, v, pool) ==> adopted_singular(kind, v, pool) == Ok::<
            ValueModel,
            MismatchModel,
        >(v),
        !singular_fits(kind, v, pool) ==> match (kind, v) {
            (SingularKind::Message(i), ValueModel::Message(m)) => {
                let name = pool.message_seq()[i.0 as int].full_name@;
                &&& adopted_singular(kind, v, pool) is Ok <==> full_name(m) == name
                    && message_bytes(m).len() <= 0x7fff_ffff && decoded(
                    pool,
                    i,
                    message_bytes(m),
                    default_options(),
                ) is Ok
                &&& adopted_singular(kind, v, pool) matches Ok(x) ==> (
                x matches ValueModel::Message(y) && decoded(
                    pool,
                    i,
                    message_bytes(m),
                    default_options(),
                ) == Ok::<MessageModel, DecodeError>(y))
                &&& adopted_singular(kind, v, pool) matches Err(e) ==> e.expected == "message "@
                    + name
                &&& full_name(m) != name ==> (adopted_singular(kind, v, pool) matches Err(e)
                    && e.actual == "message "@ + full_name(m))
            },
            _ => adopted_singular(kind, v, pool) matches Err(e) && e.expected == singular_name(
                kind,
                pool,
            ) && e.actual == shape_name(v),
        },
{
}

proof fn lemma_items_in(kind: SingularKind, l: Seq<ValueModel>, pool: DescriptorPool, i: nat)
    requires
        i <= l.len(),
    ensures
        adopted_items(kind, l, pool, i) matches Ok(x) ==> x.len() == l.len() - i && forall|j: int|
            0 <= j < x.len() ==> adopted_singular(kind, l[i + j], pool) == Ok::<
                ValueModel,
                MismatchModel,
            >(#[trigger] x[j]),
        adopted_items(kind, l, pool, i) matches Err(e) ==> e.expected == kind_name(
            FieldKind::List(kind),
            pool,
        ) && exists|j: int|
            i <= j < l.len() && (adopted_singular(kind, #[trigger] l[j], pool) matches Err(x)
                && e.actual == "list element "@ + x.actual),
    decreases l.len() - i,
{
    if i < l.len() {
        lemma_items_in(kind, l, pool, i + 1);
        if let Ok(x) = adopted_items(kind, l, pool, i) {
            let t = adopted_items(kind, l, pool, i + 1)->Ok_0;
            assert forall|j: int| 0 <= j < x.len() implies adopted_singular(kind, l[i + j], pool)
                == Ok::<ValueModel, MismatchModel>(#[trigger] x[j]) by {
                if j > 0 {
                    assert(x[j] == t[j - 1]);
                    assert(adopted_singular(kind, l[i + 1 + (j - 1)], pool) == Ok::<
                        ValueModel,
                        MismatchModel,
                    >(t[j - 1]));
                }
            }
        }
    }
}

/// A list is taken in element by element, in its order, or not at all.
pub proof fn law_take_in_list(kind: SingularKind, v: ValueModel, pool: DescriptorPool)
    ensures
        match v {
            ValueModel::List(l) => match adopted(FieldKind::List(kind), v, pool) {
                Ok(x) => x matches ValueModel::List(y) && y.len() == l.len() && forall|j: int|
                    0 <= j < l.len() ==> adopted_singular(kind, l[j], pool) == Ok::<
                        ValueModel,
                        MismatchModel,
                    >(#[trigger] y[j]),
                Err(e) => e.expected == "list<"@ + singular_name(kind, pool) + ">"@ && exists|j: int|
                    0 <= j < l.len() && (adopted_singular(
                        kind,
                        #[trigger] l[j],
                        pool,
                    ) matches Err(x) && e.actual == "list element "@ + x.actual),
            },
            _ => adopted(FieldKind::List(kind), v, pool) matches Err(e) && e.expected == "list<"@
                + singular_name(kind, pool) + ">"@ && e.actual == shape_name(v),
        },
{
    if let ValueModel::List(l) = v {
        lemma_items_in(kind, l, pool, 0);
        if value_fits(FieldKind::List(kind), v, pool) {
            assert forall|j: int| 0 <= j < l.len() implies adopted_singular(
                kind,
                #[trigger] l[j],
                pool,
            ) == Ok::<ValueModel, MismatchModel>(l[j]) by {
                law_take_in(kind, l[j], pool);
            }
        } else if let Ok(x) = adopted_items(kind, l, pool, 0) {
            assert forall|j: int| 0 <= j < l.len() implies adopted_singular(kind, l[j], pool)
                == Ok::<ValueModel, MismatchModel>(#[trigger] x[j]) by {
                assert(l[0 + j] == l[j]);
            }
        }
    }
}

/// The mismatch is what is said of the entry: that its key is not of the type, or
/// why its value is not taken in.
pub open spec fn refused_entry(
    key: ScalarType,
    value: SingularKind,
    e: (KeyModel, ValueModel),
    pool: DescriptorPool,
    x: MismatchModel,
) -> bool {
    if !key_fits(key, e.0) {
        x.actual == "map key "@ + key_shape_name(e.0)
    } else {
        adopted_singular(value, e.1, pool) matches Err(y) && x.actual == "map value "@ + y.actual
    }
}

proof fn lemma_entries_in(
    key: ScalarType,
    value: SingularKind,
    e: Seq<(KeyModel, ValueModel)>,
    pool: DescriptorPool,
    i: nat,
)
    requires
        i <= e.len(),
    ensures
        adopted_entries(key, value, e, pool, i) matches Ok(x) ==> x.len() == e.len() - i
            && forall|j: int|
            0 <= j < x.len() ==> (#[trigger] x[j]).0 == e[i + j].0 && adopted_singular(
                value,
                e[i + j].1,
                pool,
            ) == Ok::<ValueModel, MismatchModel>(x[j].1),
        adopted_entries(key, value, e, pool, i) matches Err(x) ==> x.expected == kind_name(
            FieldKind::Mapping { key, value },
            pool,
        ) && exists|j: int| i <= j < e.len() && refused_entry(key, value, #[trigger] e[j], pool, x),
        adopted_entries(key, value, e, pool, i) is Ok ==> forall|j: int|
            i <= j < e.len() ==> key_fits(key, (#[trigger] e[j]).0),
    decreases e.len() - i,
{
    if i < e.len() {
        lemma_entries_in(key, value, e, pool, i + 1);
        if let Ok(x) = adopted_entries(key, value, e, pool, i) {
            let t = adopted_entries(key, value, e, pool, i + 1)->Ok_0;
            assert forall|j: int| 0 <= j < x.len() implies (#[trigger] x[j]).0 == e[i + j].0
                && adopted_singular(value, e[i + j].1, pool) == Ok::<ValueModel, MismatchModel>(
                x[j].1,
            ) by {
                if j > 0 {
                    assert(x[j] == t[j - 1]);
                    assert(t[j - 1].0 == e[i + 1 + (j - 1)].0);
                }
            }
        }
    }
}

/// A map that does not fit as it is is taken in value by value under its keys,
/// which have to be of the type, or not at all.
pub proof fn law_take_in_map(
    key: ScalarType,
    value: SingularKind,
    e: Seq<(KeyModel, ValueModel)>,
    pool: DescriptorPool,
    k: KeyModel,
)
    requires
        !value_fits(FieldKind::Mapping { key, value }, ValueModel::Mapping(e), pool),
    ensures
        match adopted(FieldKind::Mapping { key, value }, ValueModel::Mapping(e), pool) {
            Ok(x) => {
                &&& forall|j: int| 0 <= j < e.len() ==> key_fits(key, (#[trigger] e[j]).0)
                &&& x is Mapping
                &&& entries_sorted(x->Mapping_0)
                &&& match last_under(e, k) {
                    Some(v) => last_under(x->Mapping_0, k) matches Some(w) && adopted_singular(
                        value,
                        v,
                        pool,
                    ) == Ok::<ValueModel, MismatchModel>(w),
                    None => last_under(x->Mapping_0, k) is None,
                }
            },
            Err(x) => x.expected == "map<"@ + scalar_name(key) + ", "@ + singular_name(value, pool)
                + ">"@ && exists|j: int|
                0 <= j < e.len() && refused_entry(key, value, #[trigger] e[j], pool, x),
        },
{
    lemma_entries_in(key, value, e, pool, 0);
    if let Ok(x) = adopted_entries(key, value, e, pool, 0) {
        law_last_entry(x, k);
        assert forall|j: int| 0 <= j < x.len() implies (#[trigger] x[j]).0 == e[j].0
            && adopted_singular(value, e[j].1, pool) == Ok::<ValueModel, MismatchModel>(
            x[j].1,
        ) by {
            assert(x[j].0 == e[0 + j].0);
        }
        lemma_same_keys(value, e, x, pool, k);
    }
}

proof fn lemma_same_keys(
    value: SingularKind,
    e: Seq<(KeyModel, ValueModel)>,
    x: Seq<(KeyModel, ValueModel)>,
    pool: DescriptorPool,
    k: KeyModel,
)
    requires
        x.len() == e.len(),
        forall|j: int|
            0 <= j < x.len() ==> (#[trigger] x[j]).0 == e[j].0 && adopted_singular(
                value,
                e[j].1,
                pool,
            ) == Ok::<ValueModel, MismatchModel>(x[j].1),
    ensures
        match last_under(e, k) {
            Some(v) => last_under(x, k) matches Some(w) && adopted_singular(value, v, pool) == Ok::<
                ValueModel,
                MismatchModel,
            >(w),
            None => last_under(x, k) is None,
        },
    decreases e.len(),
{
    if e.len() > 0 {
        let n = e.len() - 1;
        assert(x[n].0 == e[n].0);
        assert forall|j: int| 0 <= j < x.drop_last().len() implies (
        #[trigger] x.drop_last()[j]).0 == e.drop_last()[j].0 && adopted_singular(
            value,
            e.drop_last()[j].1,
            pool,
        ) == Ok::<ValueModel, MismatchModel>(x.drop_last()[j].1) by {
            assert(x[j].0 == e[j].0);
        }
        lemma_same_keys(value, e.drop_last(), x.drop_last(), pool, k);
    }
}

/// What is said of a value that does not fit: the kind of the field, and what the
/// value is, or the first element of it that is none of the field's.
pub open spec fn says_actual(
    kind: FieldKind,
    v: ValueModel,
    pool: DescriptorPool,
    actual: Seq<char>,
) -> bool {
    match (kind, v) {
        (FieldKind::List(k), ValueModel::List(l)) => says_some_item(k, l, pool, actual),
        (FieldKind::Mapping { key, value }, ValueModel::Mapping(e)) => says_some_entry(
            key,
            value,
            e,
            pool,
            actual,
        ),
        _ => actual == shape_name(v),
    }
}

/// What is said of the first element that does not fit.
pub open spec fn says_some_item(
    kind: SingularKind,
    l: Seq<ValueModel>,
    pool: DescriptorPool,
    actual: Seq<char>,
) -> bool {
    exists|i: int| #[trigger] says_item(kind, l, i, pool, actual)
}

/// What is said of the first entry that does not fit.
pub open spec fn says_some_entry(
    key: ScalarType,
    value: SingularKind,
    e: Seq<(KeyModel, ValueModel)>,
    pool: DescriptorPool,
    actual: Seq<char>,
) -> bool {
    exists|i: int| #[trigger] says_entry(key, value, e, i, pool, actual)
}

/// What is said of the `i`-th element, the first that does not fit.
pub open spec fn says_item(
    kind: SingularKind,
    l: Seq<ValueModel>,
    i: int,
    pool: DescriptorPool,
    actual: Seq<char>,
) -> bool {
    &&& 0 <= i < l.len()
    &&& !singular_fits(kind, l[i], pool)
    &&& actual == "list element "@ + shape_name(l[i])
    &&& forall|j: int| 0 <= j < i ==> singular_fits(kind, #[trigger] l[j], pool)
}

/// What is said of the `i`-th entry, the first that does not fit.
pub open spec fn says_entry(
    key: ScalarType,
    value: SingularKind,
    e: Seq<(KeyModel, ValueModel)>,
    i: int,
    pool: DescriptorPool,
    actual: Seq<char>,
) -> bool {
    &&& 0 <= i < e.len()
    &&& if !key_fits(key, e[i].0) {
        actual == "map key "@ + key_shape_name(e[i].0)
    } else {
        !singular_fits(value, e[i].1, pool) && actual == "map value "@ + shape_name(e[i].1)
    }
    &&& forall|j: int|
        0 <= j < i ==> key_fits(key, (#[trigger] e[j]).0) && singular_fits(value, e[j].1, pool)
}

/// A value is refused exactly where it does not fit, and what is said names the
/// kind of the field and what was found.
pub proof fn law_mismatch(kind: FieldKind, v: ValueModel, pool: DescriptorPool)
    ensures
        value_mismatch(kind, v, pool) is None <==> value_fits(kind, v, pool),
        value_mismatch(kind, v, pool) matches Some(e) ==> says_actual(kind, v, pool, e.actual)
            && e.expected == match kind {
            FieldKind::Singular(k) => singular_name(k, pool),
            FieldKind::List(k) => "list<"@ + singular_name(k, pool) + ">"@,
            FieldKind::Mapping { key, value } => "map<"@ + scalar_name(key) + ", "@
                + singular_name(value, pool) + ">"@,
        },
{
    crate::shape::lemma_value_mismatch(kind, v, pool);
    match (kind, v) {
        (FieldKind::List(k), ValueModel::List(l)) => {
            lemma_list_said(k, l, pool, 0);
        },
        (FieldKind::Mapping { key, value }, ValueModel::Mapping(e)) => {
            lemma_map_said(key, value, e, pool, 0);
        },
        _ => {},
    }
}

proof fn lemma_list_said(k: SingularKind, l: Seq<ValueModel>, pool: DescriptorPool, i: nat)
    requires
        i <= l.len(),
        forall|j: int| 0 <= j < i ==> singular_fits(k, #[trigger] l[j], pool),
    ensures
        crate::shape::list_mismatch(k, l, pool, i) matches Some(e) ==> e.expected == kind_name(
            FieldKind::List(k),
            pool,
        ) && says_actual(FieldKind::List(k), ValueModel::List(l), pool, e.actual),
    decreases l.len() - i,
{
    if i < l.len() {
        if singular_fits(k, l[i as int], pool) {
            lemma_list_said(k, l, pool, i + 1);
        } else {
            let actual = "list element "@ + shape_name(l[i as int]);
            assert(says_item(k, l, i as int, pool, actual));
        }
    }
}

proof fn lemma_map_said(
    key: ScalarType,
    value: SingularKind,
    e: Seq<(KeyModel, ValueModel)>,
    pool: DescriptorPool,
    i: nat,
)
    requires
        i <= e.len(),
        forall|j: int|
            0 <= j < i ==> key_fits(key, (#[trigger] e[j]).0) && singular_fits(
                value,
                e[j].1,
                pool,
            ),
    ensures
        crate::shape::map_mismatch(key, value, e, pool, i) matches Some(x) ==> x.expected
            == kind_name(FieldKind::Mapping { key, value }, pool) && says_actual(
            FieldKind::Mapping { key, value },
            ValueModel::Mapping(e),
            pool,
            x.actual,
        ),
    decreases e.len() - i,
{
    if i < e.len() {
        if key_fits(key, e[i as int].0) && singular_fits(value, e[i as int].1, pool) {
            lemma_map_said(key, value, e, pool, i + 1);
        } else {
            let actual = crate::shape::map_mismatch(key, value, e, pool, i)->Some_0.actual;
            assert(says_entry(key, value, e, i as int, pool, actual));
        }
    }
}

/// A value fits a field of one element where it is of its scalar type, an enum
/// number, or a message of its type in the pool itself; a list or a map where
/// every element does.
pub proof fn law_fits(kind: FieldKind, v: ValueModel, pool: DescriptorPool)
    ensures
        value_fits(kind, v, pool) <==> match (kind, v) {
            (FieldKind::Singular(k), _) => singular_fits(k, v, pool),
            (FieldKind::List(k), ValueModel::List(l)) => forall|i: int|
                0 <= i < l.len() ==> singular_fits(k, #[trigger] l[i], pool),
            (FieldKind::Mapping { key, value }, ValueModel::Mapping(e)) => forall|i: int|
                0 <= i < e.len() ==> key_fits(key, (#[trigger] e[i]).0) && singular_fits(
                    value,
                    e[i].1,
                    pool,
                ),
            _ => false,
        },
        forall|k: SingularKind| #[trigger]
            singular_fits(k, v, pool) <==> match v {
                ValueModel::EnumNumber(_) => k is Enum,
                ValueModel::Message(m) => k == SingularKind::Message(m.index) && m.pool == pool,
                ValueModel::List(_) | ValueModel::Mapping(_) => false,
                _ => k matches SingularKind::Scalar(s) && scalar_fits(s, v),
            },
{
}

// ── Equality ────────────────────────────────────────────────────────────────

/// The bits of a double that is not a number: its exponent has all bits set, and
/// its fraction some.
pub open spec fn no_number(x: u64) -> bool {
    x % 0x8000_0000_0000_0000 > 0x7ff0_0000_0000_0000
}

/// The bits of a float that is not a number.
pub open spec fn no_small_number(x: u32) -> bool {
    x % 0x8000_0000 > 0x7f80_0000
}

/// Values are equal where they are of one kind and hold the same. Of
/// floating-point numbers, what is no number equals nothing, and the two zeros
/// are equal.
pub proof fn law_same_value(a: ValueModel, b: ValueModel)
    ensures
        match (a, b) {
            (ValueModel::Bool(x), ValueModel::Bool(y)) => same_value(a, b) <==> x == y,
            (ValueModel::I32(x), ValueModel::I32(y)) => same_value(a, b) <==> x == y,
            (ValueModel::I64(x), ValueModel::I64(y)) => same_value(a, b) <==> x == y,
            (ValueModel::U32(x), ValueModel::U32(y)) => same_value(a, b) <==> x == y,
            (ValueModel::U64(x), ValueModel::U64(y)) => same_value(a, b) <==> x == y,
            (ValueModel::F32(x), ValueModel::F32(y)) => same_value(a, b) <==> !no_small_number(x)
                && !no_small_number(y) && (x == y || x % 0x8000_0000 == 0 && y % 0x8000_0000 == 0),
            (ValueModel::F64(x), ValueModel::F64(y)) => same_value(a, b) <==> !no_number(x)
                && !no_number(y) && (x == y || x % 0x8000_0000_0000_0000 == 0 && y
                % 0x8000_0000_0000_0000 == 0),
            (ValueModel::Text(x), ValueModel::Text(y)) => same_value(a, b) <==> x == y,
            (ValueModel::Bytes(x), ValueModel::Bytes(y)) => same_value(a, b) <==> x == y,
            (ValueModel::EnumNumber(x), ValueModel::EnumNumber(y)) => same_value(a, b) <==> x == y,
            (ValueModel::Message(x), ValueModel::Message(y)) => same_value(a, b) <==> same_message(
                x,
                y,
            ),
            (ValueModel::List(x), ValueModel::List(y)) => same_value(a, b) <==> x.len() == y.len()
                && forall|i: int| 0 <= i < x.len() ==> same_value(#[trigger] x[i], y[i]),
            (ValueModel::Mapping(x), ValueModel::Mapping(y)) => same_value(a, b) <==> x.len()
                == y.len() && forall|i: int|
                0 <= i < x.len() ==> (#[trigger] x[i]).0 == y[i].0 && same_value(x[i].1, y[i].1),
            _ => !same_value(a, b),
        },
{
}

/// Messages are equal where they are of one type in one pool, hold equal values
/// under the same numbers, and have as many unknown fields.
pub proof fn law_same_message(a: MessageModel, b: MessageModel)
    requires
        fields_sorted(a.fields),
        fields_sorted(b.fields),
    ensures
        same_message(a, b) ==> {
            &&& a.pool == b.pool
            &&& a.index == b.index
            &&& a.unknown.len() == b.unknown.len()
            &&& forall|n: u32| same_option(#[trigger] field_get(a.fields, n), field_get(b.fields, n))
        },
        a.pool == b.pool && a.index == b.index && a.unknown.len() == b.unknown.len()
            && a.fields.len() == b.fields.len() && (forall|i: int|
            0 <= i < a.fields.len() ==> (#[trigger] a.fields[i]).0 == b.fields[i].0 && same_value(
                a.fields[i].1,
                b.fields[i].1,
            )) ==> same_message(a, b),
{
    if same_message(a, b) {
        assert forall|n: u32| same_option(
            #[trigger] field_get(a.fields, n),
            field_get(b.fields, n),
        ) by {
            law_field_get(a.fields, n);
            law_field_get(b.fields, n);
            lemma_get_among(a.fields, n);
            lemma_get_among(b.fields, n);
            if exists|i: int| 0 <= i < a.fields.len() && (#[trigger] a.fields[i]).0 == n {
                let i = choose|i: int| 0 <= i < a.fields.len() && (#[trigger] a.fields[i]).0 == n;
                assert(b.fields[i].0 == n);
            } else {
                assert forall|i: int| 0 <= i < b.fields.len() implies (
                #[trigger] b.fields[i]).0 != n by {
                    assert(a.fields[i].0 == b.fields[i].0);
                }
            }
        }
    }
}

/// Both are there and equal, or neither is there.
pub open spec fn same_option(a: Option<ValueModel>, b: Option<ValueModel>) -> bool {
    match (a, b) {
        (Some(x), Some(y)) => same_value(x, y),
        (None, None) => true,
        _ => false,
    }
}

/// A value is left out of debug output where the descriptor of its field says so.
pub proof fn law_redacted(m: MessageModel, n: u32)
    ensures
        field_of(m.pool, m.index, n) matches Some(fd) ==> (is_redacted(m, n) <==> fd.debug_redact),
        field_of(m.pool, m.index, n) is None ==> !is_redacted(m, n),
{
}

// ── Any ─────────────────────────────────────────────────────────────────────

/// A message that is wrapped stands as its bytes under 2 in an `Any` of its pool,
/// with its full name behind `type.googleapis.com/` under 1, and nothing else.
pub proof fn law_wrapped(m: MessageModel)
    requires
        m.pool.message_seq().len() <= usize::MAX,
    ensures
        match packed(m) {
            Ok(p) => {
                &&& p.pool == m.pool
                &&& full_name(p) == "google.protobuf.Any"@
                &&& p.fields.len() == 2
                &&& p.fields[0] == (
                    1u32,
                    ValueModel::Text("type.googleapis.com/"@ + full_name(m)),
                )
                &&& p.fields[1] == (2u32, ValueModel::Bytes(message_bytes(m)))
                &&& p.unknown.len() == 0
                &&& message_bytes(m).len() <= 0x7fff_ffff
            },
            Err(AnyErrorModel::AnyNotRegistered) => forall|i: int|
                0 <= i < m.pool.message_seq().len() ==> (
                #[trigger] m.pool.message_seq()[i]).full_name@ != "google.protobuf.Any"@,
            Err(e) => e is MessageTooLarge && message_bytes(m).len() > 0x7fff_ffff && exists|i: int|
                0 <= i < m.pool.message_seq().len() && (
                #[trigger] m.pool.message_seq()[i]).full_name@ == "google.protobuf.Any"@,
        },
{
    crate::schema_laws::law_index_of(m.pool, "google.protobuf.Any"@);
    lemma_message_at(m.pool.message_seq(), "google.protobuf.Any"@, 0);
    if let Ok(p) = packed(m) {
        reveal_with_fuel(field_get, 3);
        reveal_with_fuel(crate::value::field_insert, 3);
        let url = ValueModel::Text("type.googleapis.com/"@ + full_name(m));
        assert(p.fields =~= seq![(1u32, url), (2u32, ValueModel::Bytes(message_bytes(m)))]);
    }
}

/// What an `Any` wraps is the message that its bytes under 2 are in the type
/// that its text under 1 names behind the last slash. A message that is no `Any`,
/// a text that is missing, a type that the pool does not hold and bytes that are
/// no message are refused as such.
pub proof fn law_unwrapped(m: MessageModel)
    ensures
        full_name(m) != "google.protobuf.Any"@ ==> unpacked(m) == Err::<
            MessageModel,
            AnyErrorModel,
        >(AnyErrorModel::NotAny { full_name: full_name(m) }),
        full_name(m) == "google.protobuf.Any"@ ==> {
            let url = text_at(m, 1);
            if url.len() == 0 {
                unpacked(m) == Err::<MessageModel, AnyErrorModel>(AnyErrorModel::MissingTypeUrl)
            } else {
                match index_of(m.pool, last_segment(url)) {
                    None => unpacked(m) == Err::<MessageModel, AnyErrorModel>(
                        AnyErrorModel::UnknownType { type_url: url },
                    ),
                    Some(i) => match decoded(m.pool, i, bytes_at(m, 2), default_options()) {
                        Ok(x) => unpacked(m) == Ok::<MessageModel, AnyErrorModel>(x),
                        Err(e) => unpacked(m) == Err::<MessageModel, AnyErrorModel>(
                            AnyErrorModel::Decode { type_url: url, source: e },
                        ),
                    },
                }
            }
        },
{
}

/// The text or the bytes under a number are what the field holds; where it holds
/// something else or nothing, they are empty.
pub proof fn law_text_at(m: MessageModel, n: u32)
    ensures
        match field_get(m.fields, n) {
            Some(ValueModel::Text(t)) => text_at(m, n) == t && bytes_at(m, n).len() == 0,
            Some(ValueModel::Bytes(b)) => bytes_at(m, n) == b && text_at(m, n).len() == 0,
            _ => text_at(m, n).len() == 0 && bytes_at(m, n).len() == 0,
        },
{
}

// ── Outcomes ────────────────────────────────────────────────────────────────

/// What a decode returns is what the bytes stand for, or why they stand for
/// nothing.
pub proof fn law_decodes(
    r: Result<DynamicMessage, DecodeError>,
    m: Result<MessageModel, DecodeError>,
)
    ensures
        decodes(r, m) <==> match r {
            Ok(x) => m matches Ok(y) && x@ == y,
            Err(e) => m matches Err(y) && e == y,
        },
{
}

/// What a merge leaves and returns is what is said of it.
pub proof fn law_merges(
    m: MessageModel,
    r: Result<(&[u8], Budget), DecodeError>,
    expected: (MessageModel, Result<(Seq<u8>, Budget), DecodeError>),
)
    ensures
        merges(m, r, expected) <==> m == expected.0 && match r {
            Ok(x) => expected.1 matches Ok(y) && x.0@ == y.0 && x.1 == y.1,
            Err(e) => expected.1 matches Err(y) && e == y,
        },
{
}

/// A value that is read is what is said of it, with the bytes behind it.
pub proof fn law_reads_value(
    r: Result<(Value, &[u8]), DecodeError>,
    m: Result<(ValueModel, Seq<u8>), DecodeError>,
)
    ensures
        reads_value(r, m) <==> match r {
            Ok(x) => m matches Ok(y) && x.0@ == y.0 && x.1@ == y.1,
            Err(e) => m matches Err(y) && e == y,
        },
{
}

/// What wrapping and unwrapping return is what is said of it.
pub proof fn law_wraps(
    r: Result<DynamicMessage, AnyError>,
    m: Result<MessageModel, AnyErrorModel>,
)
    ensures
        wraps(r, m) <==> match r {
            Ok(x) => m matches Ok(y) && x@ == y,
            Err(e) => m matches Err(y) && e@ == y,
        },
{
}

/// What is taken in is what is said of it.
pub proof fn law_adopts(
    r: Result<Value, ValueShapeMismatch>,
    m: Result<ValueModel, MismatchModel>,
)
    ensures
        adopts(r, m) <==> match r {
            Ok(x) => m matches Ok(y) && x@ == y,
            Err(e) => m matches Err(y) && e.expected@ == y.expected && e.actual@ == y.actual,
        },
{
}

/// A mismatch is reported exactly where there is one.
pub proof fn law_reports(r: Result<(), ValueShapeMismatch>, m: Option<MismatchModel>)
    ensures
        reports(r, m) <==> match r {
            Ok(_) => m is None,
            Err(e) => m matches Some(y) && e.expected@ == y.expected && e.actual@ == y.actual,
        },
{
}

/// Setting and clearing leave what is said, or leave the message alone and say
/// why.
pub proof fn law_changes(
    before: MessageModel,
    m: MessageModel,
    r: Result<(), ReflectError>,
    expected: Result<MessageModel, ReflectErrorModel>,
)
    ensures
        changes(before, m, r, expected) <==> match r {
            Ok(_) => expected matches Ok(y) && m == y,
            Err(e) => m == before && (expected matches Err(y) && e@ == y),
        },
{
}

/// What a value stands for.
pub proof fn law_value_view(v: Value)
    ensures
        match v {
            Value::Bool(x) => v@ == ValueModel::Bool(x),
            Value::I32(x) => v@ == ValueModel::I32(x),
            Value::I64(x) => v@ == ValueModel::I64(x),
            Value::U32(x) => v@ == ValueModel::U32(x),
            Value::U64(x) => v@ == ValueModel::U64(x),
            Value::F32(x) => v@ == ValueModel::F32(x),
            Value::F64(x) => v@ == ValueModel::F64(x),
            Value::String(x) => v@ == ValueModel::Text(x@),
            Value::Bytes(x) => v@ == ValueModel::Bytes(x@),
            Value::EnumNumber(x) => v@ == ValueModel::EnumNumber(x),
            Value::Message(x) => v@ == ValueModel::Message(x@),
            Value::List(x) => v@ matches ValueModel::List(l) && l.len() == x@.len() && forall|i: int|
                0 <= i < l.len() ==> #[trigger] l[i] == x@[i]@,
            Value::Mapping(x) => v@ == ValueModel::Mapping(x@),
        },
{
}

/// What a value by reference stands for.
pub proof fn law_ref_view(v: ValueRef<'_>)
    ensures
        match v {
            ValueRef::Bool(x) => v@ == ValueModel::Bool(x),
            ValueRef::I32(x) => v@ == ValueModel::I32(x),
            ValueRef::I64(x) => v@ == ValueModel::I64(x),
            ValueRef::U32(x) => v@ == ValueModel::U32(x),
            ValueRef::U64(x) => v@ == ValueModel::U64(x),
            ValueRef::F32(x) => v@ == ValueModel::F32(x),
            ValueRef::F64(x) => v@ == ValueModel::F64(x),
            ValueRef::String(x) => v@ == ValueModel::Text(x@),
            ValueRef::Bytes(x) => v@ == ValueModel::Bytes(x@),
            ValueRef::EnumNumber(x) => v@ == ValueModel::EnumNumber(x),
            ValueRef::Message(x) => v@ == ValueModel::Message(x@),
            ValueRef::List(x) => v@ == ValueModel::List(items_view(x@)),
            ValueRef::Mapping(x) => v@ == ValueModel::Mapping(entries_view(x@)),
        },
{
}

/// What a map key stands for.
pub proof fn law_key_view(k: MapKey)
    ensures
        match k {
            MapKey::Bool(x) => k@ == KeyModel::Bool(x),
            MapKey::I32(x) => k@ == KeyModel::I32(x),
            MapKey::I64(x) => k@ == KeyModel::I64(x),
            MapKey::U32(x) => k@ == KeyModel::U32(x),
            MapKey::U64(x) => k@ == KeyModel::U64(x),
            MapKey::String(x) => k@ == KeyModel::Text(x@),
        },
{
}

} // verus!
