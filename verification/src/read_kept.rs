//! What is read from JSON is in order, as what is decoded is; so is what is
//! packed, and what is changed in place.
use vstd::prelude::*;
use crate::any::packed;
use crate::buffered::{height, lemma_element_height, lemma_member_height};
use crate::descriptor::{
    index_of, DescriptorPool, FieldKind, MessageIndex, ScalarType, SingularKind,
};
use crate::from_json::{
    any_from, dynamic_from, element_from, entries_from, field_from, field_named, items_from,
    list_from, list_items, message_from, plain_from, struct_entries, struct_from, text_values,
    wkt_from,
};
use crate::json::InputModel;
use crate::kept::{among, lemma_clear_kept, lemma_put_kept, ordered, value_ordered};
use crate::map::{lemma_normal_entries_sorted, normal_entries};
use crate::merge::clear_oneof;
use crate::merge_kept::{entry_among, lemma_normal_among};
use crate::value::{
    empty_message, field_get, field_put, field_replace, with_field, KeyModel, MessageModel,
    ValueModel,
};
use crate::wkt::{mask_paths, wkt_of, WktKind};

verus! {

/// A message in order is so with another field whose value is in order.
pub proof fn lemma_put_ordered(m: MessageModel, n: u32, v: ValueModel)
    requires
        ordered(m),
        value_ordered(v),
    ensures
        ordered(with_field(m, n, v)),
{
    let r = with_field(m, n, v);
    lemma_put_kept(m.fields, n, v);
    assert forall|i: int| 0 <= i < r.fields.len() implies value_ordered(
        (#[trigger] r.fields[i]).1,
    ) by {
        if r.fields[i] != (n, v) {
            assert(among(m.fields, field_put(m.fields, n, v)[i]));
            let j = choose|j: int| 0 <= j < m.fields.len() && #[trigger] m.fields[j] == r.fields[i];
            assert(value_ordered(m.fields[j].1));
        }
    }
}

proof fn lemma_clear_ordered(m: MessageModel, oneof: Option<u16>, keep: u32)
    requires
        ordered(m),
    ensures
        ordered(clear_oneof(m, oneof, keep)),
{
    let r = clear_oneof(m, oneof, keep);
    lemma_clear_kept(m, oneof, keep);
    assert forall|i: int| 0 <= i < r.fields.len() implies value_ordered(
        (#[trigger] r.fields[i]).1,
    ) by {
        assert(among(m.fields, r.fields[i]));
        let j = choose|j: int| 0 <= j < m.fields.len() && #[trigger] m.fields[j] == r.fields[i];
        assert(value_ordered(m.fields[j].1));
    }
}

/// Entries whose values are in order make a map in order.
proof fn lemma_entries_ordered(e: Seq<(KeyModel, ValueModel)>)
    requires
        forall|i: int| 0 <= i < e.len() ==> value_ordered((#[trigger] e[i]).1),
    ensures
        value_ordered(ValueModel::Mapping(normal_entries(e))),
{
    let r = normal_entries(e);
    lemma_normal_entries_sorted(e);
    lemma_normal_among(e);
    assert forall|i: int| 0 <= i < r.len() implies value_ordered((#[trigger] r[i]).1) by {
        assert(entry_among(e, r[i]));
        let j = choose|j: int| 0 <= j < e.len() && #[trigger] e[j] == r[i];
        assert(value_ordered(e[j].1));
    }
}

/// A message that is read from JSON has its fields in the order of their
/// numbers and the entries of its maps in the order of their keys, nothing
/// twice; and so has every message in it.
pub proof fn law_read_ordered(
    pool: DescriptorPool,
    index: MessageIndex,
    j: InputModel,
    lenient: bool,
)
    ensures
        message_from(pool, index, j, lenient) matches Ok(m) ==> ordered(m) && m.pool == pool
            && m.index == index,
    decreases height(j), 6nat, 0nat,
{
    match wkt_of(pool.message_seq()[index.0 as int].full_name@) {
        Some(w) => {
            lemma_wkt_ordered(w, pool, index, j, lenient);
        },
        None => {
            if let InputModel::Object(o) = j {
                lemma_plain_ordered(empty_message(pool, index), o, 0, lenient);
            }
        },
    }
}

proof fn lemma_plain_ordered(
    m: MessageModel,
    o: Seq<(Seq<char>, InputModel)>,
    i: nat,
    lenient: bool,
)
    requires
        ordered(m),
    ensures
        plain_from(m, o, i, lenient) matches Ok(x) ==> ordered(x) && x.pool == m.pool && x.index
            == m.index,
    decreases height(InputModel::Object(o)), 3nat, o.len() - i,
{
    let fields = m.pool.message_seq()[m.index.0 as int].fields@;
    if i < o.len() {
        lemma_member_height(o, i as int);
        match field_named(fields, o[i as int].0, 0) {
            None => {
                lemma_plain_ordered(m, o, i + 1, lenient);
            },
            Some(k) => {
                let fd = fields[k as int];
                lemma_field_ordered(m.pool, fd.kind, o[i as int].1, lenient);
                if let Ok(Some(v)) = field_from(m.pool, fd.kind, o[i as int].1, lenient) {
                    let c = clear_oneof(m, fd.oneof_index, fd.number);
                    lemma_clear_ordered(m, fd.oneof_index, fd.number);
                    lemma_put_ordered(c, fd.number, v);
                    lemma_plain_ordered(with_field(c, fd.number, v), o, i + 1, lenient);
                } else {
                    lemma_plain_ordered(m, o, i + 1, lenient);
                }
            },
        }
    }
}

proof fn lemma_field_ordered(pool: DescriptorPool, kind: FieldKind, j: InputModel, lenient: bool)
    ensures
        field_from(pool, kind, j, lenient) matches Ok(Some(v)) ==> value_ordered(v),
    decreases height(j), 9nat, 0nat,
{
    match (kind, j) {
        (FieldKind::Singular(k), _) => {
            lemma_element_ordered(pool, k, j, lenient);
        },
        (FieldKind::List(k), InputModel::Array(a)) => {
            lemma_items_ordered(pool, k, a, 0, lenient);
        },
        (FieldKind::Mapping { key, value }, InputModel::Object(o)) => {
            lemma_members_ordered(pool, key, value, o, 0, lenient);
            if let Ok(e) = entries_from(pool, key, value, o, 0, lenient) {
                lemma_entries_ordered(e);
            }
        },
        _ => {},
    }
}

proof fn lemma_element_ordered(
    pool: DescriptorPool,
    kind: SingularKind,
    j: InputModel,
    lenient: bool,
)
    ensures
        element_from(pool, kind, j, lenient) matches Ok(v) ==> value_ordered(v),
    decreases height(j), 7nat, 0nat,
{
    if let SingularKind::Message(i) = kind {
        law_read_ordered(pool, i, j, lenient);
    }
}

proof fn lemma_items_ordered(
    pool: DescriptorPool,
    kind: SingularKind,
    a: Seq<InputModel>,
    i: nat,
    lenient: bool,
)
    ensures
        items_from(pool, kind, a, i, lenient) matches Ok(l) ==> forall|k: int|
            0 <= k < l.len() ==> value_ordered(#[trigger] l[k]),
    decreases height(InputModel::Array(a)), 8nat, a.len() - i,
{
    if i < a.len() {
        lemma_element_height(a, i as int);
        lemma_element_ordered(pool, kind, a[i as int], lenient);
        lemma_items_ordered(pool, kind, a, i + 1, lenient);
        if let Ok(l) = items_from(pool, kind, a, i, lenient) {
            let rest = items_from(pool, kind, a, i + 1, lenient)->Ok_0;
            assert forall|k: int| 0 <= k < l.len() implies value_ordered(#[trigger] l[k]) by {
                if k > 0 {
                    assert(l[k] == rest[k - 1]);
                }
            }
        }
    }
}

proof fn lemma_members_ordered(
    pool: DescriptorPool,
    key: ScalarType,
    kind: SingularKind,
    o: Seq<(Seq<char>, InputModel)>,
    i: nat,
    lenient: bool,
)
    ensures
        entries_from(pool, key, kind, o, i, lenient) matches Ok(e) ==> forall|k: int|
            0 <= k < e.len() ==> value_ordered((#[trigger] e[k]).1),
    decreases height(InputModel::Object(o)), 8nat, o.len() - i,
{
    if i < o.len() {
        lemma_member_height(o, i as int);
        lemma_element_ordered(pool, kind, o[i as int].1, lenient);
        lemma_members_ordered(pool, key, kind, o, i + 1, lenient);
        if let Ok(e) = entries_from(pool, key, kind, o, i, lenient) {
            let rest = entries_from(pool, key, kind, o, i + 1, lenient)->Ok_0;
            assert forall|k: int| 0 <= k < e.len() implies value_ordered((#[trigger] e[k]).1) by {
                if k > 0 {
                    assert(e[k] == rest[k - 1]);
                }
            }
        }
    }
}

proof fn lemma_wkt_ordered(
    w: WktKind,
    pool: DescriptorPool,
    index: MessageIndex,
    j: InputModel,
    lenient: bool,
)
    ensures
        wkt_from(w, pool, index, j, lenient) matches Ok(m) ==> ordered(m) && m.pool == pool
            && m.index == index,
    decreases height(j), 5nat, 0nat,
{
    let x = empty_message(pool, index);
    assert(ordered(x));
    if let Ok(m) = wkt_from(w, pool, index, j, lenient) {
        match (w, j) {
            (WktKind::Any, InputModel::Object(o)) => {
                lemma_any_ordered(pool, index, o, lenient);
            },
            (WktKind::Struct, InputModel::Object(o)) => {
                lemma_struct_ordered(pool, index, o);
            },
            (WktKind::ListValue, InputModel::Array(a)) => {
                lemma_list_ordered(pool, index, a);
            },
            (WktKind::JsonValue, _) => {
                law_value_ordered(pool, index, j);
            },
            (WktKind::Timestamp, _) | (WktKind::Duration, _) => {
                assert forall|a: i64| ordered(#[trigger] with_field(x, 1, ValueModel::I64(a))) by {
                    lemma_put_ordered(x, 1, ValueModel::I64(a));
                }
                assert forall|y: MessageModel, b: i32| ordered(y) implies ordered(
                    #[trigger] with_field(y, 2, ValueModel::I32(b)),
                ) by {
                    lemma_put_ordered(y, 2, ValueModel::I32(b));
                }
            },
            (WktKind::FieldMask, InputModel::Text(s)) => {
                let l = text_values(mask_paths(s)->Ok_0);
                assert forall|k: int| 0 <= k < l.len() implies value_ordered(#[trigger] l[k]) by {}
                lemma_put_ordered(x, 1, ValueModel::List(l));
            },
            (WktKind::Wrapper(_), _) => {
                assert forall|v: ValueModel| value_ordered(v) implies ordered(
                    #[trigger] with_field(x, 1, v),
                ) by {
                    lemma_put_ordered(x, 1, v);
                }
            },
            _ => {},
        }
    }
}

/// A `google.protobuf.Value` that is read from JSON is in order, and so is
/// every message in it.
pub proof fn law_value_ordered(pool: DescriptorPool, index: MessageIndex, j: InputModel)
    ensures
        dynamic_from(pool, index, j) matches Ok(m) ==> ordered(m) && m.pool == pool && m.index
            == index,
    decreases height(j), 4nat, 0nat,
{
    let x = empty_message(pool, index);
    assert(ordered(x));
    match j {
        InputModel::Array(a) => {
            if let Some(i) = index_of(pool, "google.protobuf.ListValue"@) {
                lemma_list_ordered(pool, i, a);
                if let Ok(y) = list_from(pool, i, a) {
                    lemma_put_ordered(x, 6, ValueModel::Message(y));
                }
            }
        },
        InputModel::Object(o) => {
            if let Some(i) = index_of(pool, "google.protobuf.Struct"@) {
                lemma_struct_ordered(pool, i, o);
                if let Ok(y) = struct_from(pool, i, o) {
                    lemma_put_ordered(x, 5, ValueModel::Message(y));
                }
            }
        },
        InputModel::Null => {
            lemma_put_ordered(x, 1, ValueModel::EnumNumber(0));
        },
        InputModel::Bool(b) => {
            lemma_put_ordered(x, 4, ValueModel::Bool(b));
        },
        InputModel::Number(n) => {
            lemma_put_ordered(x, 2, ValueModel::F64(n.double));
        },
        InputModel::Text(s) => {
            lemma_put_ordered(x, 3, ValueModel::Text(s));
        },
    }
}

proof fn lemma_struct_ordered(
    pool: DescriptorPool,
    index: MessageIndex,
    o: Seq<(Seq<char>, InputModel)>,
)
    ensures
        struct_from(pool, index, o) matches Ok(m) ==> ordered(m) && m.pool == pool && m.index
            == index,
    decreases height(InputModel::Object(o)), 3nat, 0nat,
{
    let x = empty_message(pool, index);
    assert(ordered(x));
    if let Some(v) = index_of(pool, "google.protobuf.Value"@) {
        lemma_struct_entries_ordered(pool, v, o, 0);
        if let Ok(e) = struct_entries(pool, v, o, 0) {
            lemma_entries_ordered(e);
            lemma_put_ordered(x, 1, ValueModel::Mapping(normal_entries(e)));
        }
    }
}

proof fn lemma_struct_entries_ordered(
    pool: DescriptorPool,
    v: MessageIndex,
    o: Seq<(Seq<char>, InputModel)>,
    i: nat,
)
    ensures
        struct_entries(pool, v, o, i) matches Ok(e) ==> forall|k: int|
            0 <= k < e.len() ==> value_ordered((#[trigger] e[k]).1),
    decreases height(InputModel::Object(o)), 2nat, o.len() - i,
{
    if i < o.len() {
        lemma_member_height(o, i as int);
        law_read_ordered(pool, v, o[i as int].1, false);
        lemma_struct_entries_ordered(pool, v, o, i + 1);
        if let Ok(e) = struct_entries(pool, v, o, i) {
            let rest = struct_entries(pool, v, o, i + 1)->Ok_0;
            assert forall|k: int| 0 <= k < e.len() implies value_ordered((#[trigger] e[k]).1) by {
                if k > 0 {
                    assert(e[k] == rest[k - 1]);
                }
            }
        }
    }
}

proof fn lemma_list_ordered(pool: DescriptorPool, index: MessageIndex, a: Seq<InputModel>)
    ensures
        list_from(pool, index, a) matches Ok(m) ==> ordered(m) && m.pool == pool && m.index
            == index,
    decreases height(InputModel::Array(a)), 3nat, 0nat,
{
    let x = empty_message(pool, index);
    assert(ordered(x));
    if let Some(v) = index_of(pool, "google.protobuf.Value"@) {
        lemma_list_items_ordered(pool, v, a, 0);
        if let Ok(l) = list_items(pool, v, a, 0) {
            lemma_put_ordered(x, 1, ValueModel::List(l));
        }
    }
}

proof fn lemma_list_items_ordered(
    pool: DescriptorPool,
    v: MessageIndex,
    a: Seq<InputModel>,
    i: nat,
)
    ensures
        list_items(pool, v, a, i) matches Ok(l) ==> forall|k: int|
            0 <= k < l.len() ==> value_ordered(#[trigger] l[k]),
    decreases height(InputModel::Array(a)), 2nat, a.len() - i,
{
    if i < a.len() {
        lemma_element_height(a, i as int);
        law_read_ordered(pool, v, a[i as int], false);
        lemma_list_items_ordered(pool, v, a, i + 1);
        if let Ok(l) = list_items(pool, v, a, i) {
            let rest = list_items(pool, v, a, i + 1)->Ok_0;
            assert forall|k: int| 0 <= k < l.len() implies value_ordered(#[trigger] l[k]) by {
                if k > 0 {
                    assert(l[k] == rest[k - 1]);
                }
            }
        }
    }
}

/// An `Any` holds a name and bytes, whatever was read for it.
proof fn lemma_any_ordered(
    pool: DescriptorPool,
    index: MessageIndex,
    o: Seq<(Seq<char>, InputModel)>,
    lenient: bool,
)
    ensures
        any_from(pool, index, o, lenient) matches Ok(m) ==> ordered(m) && m.pool == pool && m.index
            == index,
{
    let x = empty_message(pool, index);
    assert(ordered(x));
    assert forall|u: Seq<char>| ordered(#[trigger] with_field(x, 1, ValueModel::Text(u))) by {
        lemma_put_ordered(x, 1, ValueModel::Text(u));
    }
    assert forall|y: MessageModel, b: Seq<u8>| ordered(y) implies ordered(
        #[trigger] with_field(y, 2, ValueModel::Bytes(b)),
    ) by {
        lemma_put_ordered(y, 2, ValueModel::Bytes(b));
    }
}

/// The `Any` that wraps a message is in order.
pub proof fn law_packed_ordered(m: MessageModel)
    ensures
        packed(m) matches Ok(a) ==> ordered(a),
{
    if let Ok(a) = packed(m) {
        let x = empty_message(a.pool, a.index);
        assert(ordered(x));
        assert forall|u: Seq<char>| ordered(#[trigger] with_field(x, 1, ValueModel::Text(u))) by {
            lemma_put_ordered(x, 1, ValueModel::Text(u));
        }
        assert forall|y: MessageModel, b: Seq<u8>| ordered(y) implies ordered(
            #[trigger] with_field(y, 2, ValueModel::Bytes(b)),
        ) by {
            lemma_put_ordered(y, 2, ValueModel::Bytes(b));
        }
    }
}

/// A message stays in order where a value in it is replaced by another one in
/// order, as may be done through the reference that `field_by_number_mut`
/// gives.
pub proof fn law_replaced_ordered(m: MessageModel, n: u32, v: ValueModel)
    requires
        ordered(m),
        value_ordered(v),
        field_get(m.fields, n) is Some,
    ensures
        ordered(MessageModel { fields: field_replace(m.fields, n, v), ..m }),
{
    lemma_put_ordered(m, n, v);
}

} // verus!
