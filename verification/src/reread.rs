//! What was decoded can be encoded and decoded again, and comes back the same.
use vstd::prelude::*;
use crate::decode::{decoded, full_budget, DecodeOptions};
use crate::descriptor::{
    enum_knows, field_of, kind_linked, lemma_field_of, pool_linked, DescriptorPool, EnumIndex,
    EnumType, FieldDescriptor, FieldKind, MessageIndex, ScalarType, SingularKind,
};
use crate::encode::{
    element_bytes, entries_bytes, entry_bytes, field_bytes, message_bytes, packed_bytes,
    repeated_bytes, set_bytes, stored_bytes, tagged_bytes,
};
use crate::kept::{
    exclusive, ordered, regular, regular_element, regular_field, regular_held, regular_value,
    shares_oneof, value_ordered,
};
use crate::map::{entries_sorted, key_before, lemma_normal_entries_id};
use crate::merge::{normal_fields, normal_value, take_closed_entry, ClosedValue};
use crate::merge_kept::{lemma_empty_regular, lemma_message_kept, lemma_ordered_loosely};
use crate::roundtrip::{
    canonical, covers, in_oneof, is_bare, law_decode_encode, message_cost, oneofs_exclusive,
    read_entries, read_fields, read_items, read_message, read_stored, read_value, readable,
    readable_element, readable_entries, readable_fields, readable_held, readable_items,
    readable_value, settled, settled_element, settled_field, settled_value, shown, shown_in,
    stays_unknown, stray_entries, stray_fields, stray_value, strays,
};
use crate::scalar::{take_int32, take_key};
use crate::shape::{key_fits, singular_fits, value_fits};
use crate::spending::law_decoded_covered;
use crate::unknown::{
    payload_bytes, payload_wire, skip_payload, spend, take_group, take_payload, unknown_bytes,
    UnknownEntry, UnknownPayload,
};
use crate::value::{empty_message, KeyModel, MessageModel, ValueModel};
use crate::wire::{
    delimited_bytes, lemma_take_tag, tag_bytes, take_tag, DecodeError, Tag, WireType,
};

verus! {

// ── Defaults that were given for want of a value ────────────────────────────

/// Messages nest in the message at most `depth` deep. One that was decoded within
/// so many levels nests deeper only where a map entry came without a value at
/// the last of them and was given a message with nothing set.
pub open spec fn within_levels(m: MessageModel, depth: nat) -> bool
    decreases m,
{
    forall|i: int| 0 <= i < m.fields.len() ==> value_within((#[trigger] m.fields[i]).1, depth)
}

/// Messages nest in the value at most `depth` deep.
pub open spec fn value_within(v: ValueModel, depth: nat) -> bool
    decreases v, 1nat,
{
    match v {
        ValueModel::Mapping(e) => forall|i: int|
            0 <= i < e.len() ==> element_within((#[trigger] e[i]).1, depth),
        ValueModel::List(l) => forall|i: int|
            0 <= i < l.len() ==> element_within(#[trigger] l[i], depth),
        _ => element_within(v, depth),
    }
}

/// Messages nest in the element at most `depth` deep.
pub open spec fn element_within(v: ValueModel, depth: nat) -> bool
    decreases v, 0nat,
{
    v matches ValueModel::Message(x) ==> depth > 0 && within_levels(x, (depth - 1) as nat)
}

// ── Entries that stray behind everything else ───────────────────────────────

/// Behind an entry that strays nothing is written but entries that stray, and
/// unknown fields; and so in every message in it.
pub open spec fn strays_last(m: MessageModel) -> bool
    decreases m,
{
    &&& fields_last(m.pool, m.index, m.fields)
    &&& forall|i: int|
        0 <= i < m.fields.len() ==> field_last(m.pool, m.index, #[trigger] m.fields[i])
}

/// Behind a field with entries that stray no field is written with others.
pub open spec fn fields_last(
    pool: DescriptorPool,
    index: MessageIndex,
    fields: Seq<(u32, ValueModel)>,
) -> bool {
    forall|i: int, j: int|
        #![trigger fields[i], fields[j]]
        0 <= i < j < fields.len() && has_strays(pool, index, fields[i]) && shown_in(
            pool,
            index,
            fields[j],
        ) ==> only_strays(pool, index, fields[j])
}

/// The field is written with entries that stray.
pub open spec fn has_strays(
    pool: DescriptorPool,
    index: MessageIndex,
    f: (u32, ValueModel),
) -> bool {
    shown_in(pool, index, f) && stray_value(
        pool,
        field_of(pool, index, f.0)->Some_0,
        f.1,
    ).len() > 0
}

/// The field is written with nothing but entries that stray.
pub open spec fn only_strays(
    pool: DescriptorPool,
    index: MessageIndex,
    f: (u32, ValueModel),
) -> bool {
    let fd = field_of(pool, index, f.0)->Some_0;
    is_bare(read_stored(pool, fd.kind, fd.enum_type, f.1))
}

/// Entries that stray are the last in the field.
pub open spec fn field_last(
    pool: DescriptorPool,
    index: MessageIndex,
    f: (u32, ValueModel),
) -> bool
    decreases f,
{
    field_of(pool, index, f.0) matches Some(fd) ==> value_last(pool, fd.kind, fd.enum_type, f.1)
}

/// Entries that stray are the last in the value of the field.
pub open spec fn value_last(
    pool: DescriptorPool,
    kind: FieldKind,
    enum_type: Option<EnumType>,
    v: ValueModel,
) -> bool
    decreases v, 1nat,
{
    match (kind, v) {
        (FieldKind::Mapping { key, value }, ValueModel::Mapping(e)) => {
            &&& entries_last(pool, value, enum_type, e)
            &&& forall|i: int| 0 <= i < e.len() ==> element_last((#[trigger] e[i]).1)
        },
        (_, ValueModel::List(l)) => forall|i: int|
            0 <= i < l.len() ==> element_last(#[trigger] l[i]),
        _ => element_last(v),
    }
}

/// Behind an entry that strays there are only others that do.
pub open spec fn entries_last(
    pool: DescriptorPool,
    kind: SingularKind,
    enum_type: Option<EnumType>,
    e: Seq<(KeyModel, ValueModel)>,
) -> bool {
    forall|i: int, j: int|
        #![trigger e[i], e[j]]
        0 <= i < j < e.len() && strays(pool, kind, enum_type, e[i].1) ==> strays(
            pool,
            kind,
            enum_type,
            e[j].1,
        )
}

/// Entries that stray are the last in the element.
pub open spec fn element_last(v: ValueModel) -> bool
    decreases v, 0nat,
{
    v matches ValueModel::Message(x) ==> strays_last(x)
}

/// Where no entry strays, none has anything behind it.
pub proof fn lemma_settled_last(m: MessageModel)
    requires
        settled(m),
    ensures
        strays_last(m),
    decreases m, 2nat,
{
    assert(decreases_to!(m => m.fields));
    assert forall|i: int| 0 <= i < m.fields.len() implies !has_strays(
        m.pool,
        m.index,
        #[trigger] m.fields[i],
    ) && field_last(m.pool, m.index, m.fields[i]) by {
        let f = m.fields[i];
        assert(settled_field(m.pool, m.index, f));
        assert(decreases_to!(m.fields => m.fields[i]));
        assert(decreases_to!(m.fields[i] => m.fields[i].1));
        if let Some(fd) = field_of(m.pool, m.index, f.0) {
            lemma_settled_value(m.pool, fd, f.1);
        }
    }
}

proof fn lemma_settled_value(pool: DescriptorPool, fd: FieldDescriptor, v: ValueModel)
    requires
        settled_value(pool, fd.kind, fd.enum_type, v),
    ensures
        value_last(pool, fd.kind, fd.enum_type, v),
        stray_value(pool, fd, v) == Seq::<UnknownEntry>::empty(),
    decreases v, 1nat,
{
    match (fd.kind, v) {
        (FieldKind::Mapping { key, value }, ValueModel::Mapping(e)) => {
            assert(decreases_to!(v => v->Mapping_0));
            assert forall|i: int| 0 <= i < e.len() implies element_last((#[trigger] e[i]).1) by {
                assert(decreases_to!(e => e[i]));
                assert(decreases_to!(e[i] => e[i].1));
                lemma_settled_element(e[i].1);
            }
            lemma_no_stray_entries(pool, fd.number, key, value, fd.enum_type, e);
        },
        (_, ValueModel::List(l)) => {
            assert(decreases_to!(v => v->List_0));
            assert forall|i: int| 0 <= i < l.len() implies element_last(#[trigger] l[i]) by {
                assert(decreases_to!(l => l[i]));
                lemma_settled_element(l[i]);
            }
        },
        _ => {
            lemma_settled_element(v);
        },
    }
}

proof fn lemma_settled_element(v: ValueModel)
    requires
        settled_element(v),
    ensures
        element_last(v),
    decreases v, 0nat,
{
    if let ValueModel::Message(x) = v {
        assert(decreases_to!(v => v->Message_0));
        lemma_settled_last(x);
    }
}

// ── More levels change nothing ──────────────────────────────────────────────

proof fn lemma_payload_deeper(tag: Tag, s: Seq<u8>, d0: nat, d: nat, slots: Option<nat>)
    requires
        d0 <= d,
        take_payload(tag, s, d0, slots) is Ok,
    ensures
        take_payload(tag, s, d, slots) == take_payload(tag, s, d0, slots),
    decreases d0, s.len(), 0nat,
{
    if tag.wire_type == WireType::StartGroup {
        lemma_group_deeper(
            tag.field_number,
            s,
            (d0 - 1) as nat,
            (d - 1) as nat,
            spend(slots),
        );
    }
}

proof fn lemma_group_deeper(number: u32, s: Seq<u8>, d0: nat, d: nat, slots: Option<nat>)
    requires
        d0 <= d,
        take_group(number, s, d0, slots) is Ok,
    ensures
        take_group(number, s, d, slots) == take_group(number, s, d0, slots),
    decreases d0, s.len(), 1nat,
{
    lemma_take_tag(s);
    let t = take_tag(s)->Ok_0;
    if t.0.wire_type != WireType::EndGroup {
        lemma_payload_deeper(t.0, t.1, d0, d, slots);
        let p = take_payload(t.0, t.1, d0, slots)->Ok_0;
        lemma_group_deeper(number, p.1, d0, d, p.2);
    }
}

proof fn lemma_closed_entry_deeper(
    pool: DescriptorPool,
    key_type: ScalarType,
    e: EnumIndex,
    s: Seq<u8>,
    d0: nat,
    d: nat,
    key: Option<KeyModel>,
    value: ClosedValue,
)
    requires
        d0 <= d,
        take_closed_entry(pool, key_type, e, s, d0, key, value) is Ok,
    ensures
        take_closed_entry(pool, key_type, e, s, d, key, value) == take_closed_entry(
            pool,
            key_type,
            e,
            s,
            d0,
            key,
            value,
        ),
    decreases s.len(),
{
    if s.len() > 0 {
        let t = take_tag(s)->Ok_0;
        if t.0.field_number == 1 {
            let p = take_key(key_type, t.0, t.1)->Ok_0;
            lemma_closed_entry_deeper(pool, key_type, e, p.1, d0, d, Some(p.0), value);
        } else if t.0.field_number == 2 {
            let p = take_int32(t.1)->Ok_0;
            let v = if enum_knows(pool, e, Some(EnumType::Closed), p.0) {
                ClosedValue::Known(p.0)
            } else {
                ClosedValue::Unknown
            };
            lemma_closed_entry_deeper(pool, key_type, e, p.1, d0, d, key, v);
        } else {
            lemma_payload_deeper(t.0, t.1, d0, d, None);
            let rest = skip_payload(t.0, t.1, d0)->Ok_0;
            lemma_closed_entry_deeper(pool, key_type, e, rest, d0, d, key, value);
        }
    }
}

proof fn lemma_stays_deeper(m: MessageModel, e: UnknownEntry, d0: nat, d: nat)
    requires
        d0 <= d,
        stays_unknown(m, e, d0),
    ensures
        stays_unknown(m, e, d),
{
    if let Some(fd) = field_of(m.pool, m.index, e.number) {
        if let FieldKind::Mapping { key, value: SingularKind::Enum(en) } = fd.kind {
            if let UnknownPayload::LengthDelimited(b) = e.data {
                if take_closed_entry(
                    m.pool,
                    key,
                    en,
                    b,
                    d0,
                    None,
                    ClosedValue::Absent,
                ) is Ok {
                    lemma_closed_entry_deeper(
                        m.pool,
                        key,
                        en,
                        b,
                        d0,
                        d,
                        None,
                        ClosedValue::Absent,
                    );
                }
            }
        }
    }
}

// ── What decoding makes is read back ────────────────────────────────────────

proof fn lemma_readable_fields(
    pool: DescriptorPool,
    index: MessageIndex,
    fields: Seq<(u32, ValueModel)>,
    depth: nat,
)
    requires
        forall|i: int|
            0 <= i < fields.len() && shown_in(pool, index, #[trigger] fields[i])
                ==> readable_value(
                pool,
                field_of(pool, index, fields[i].0)->Some_0,
                fields[i].1,
                depth,
            ),
    ensures
        readable_fields(pool, index, fields, depth),
    decreases fields.len(),
{
    if fields.len() > 0 {
        let t = fields.subrange(1, fields.len() as int);
        assert forall|i: int|
            0 <= i < t.len() && shown_in(pool, index, #[trigger] t[i]) implies readable_value(
            pool,
            field_of(pool, index, t[i].0)->Some_0,
            t[i].1,
            depth,
        ) by {
            assert(t[i] == fields[i + 1]);
        }
        lemma_readable_fields(pool, index, t, depth);
        assert(fields[0] == fields[0]);
    }
}

proof fn lemma_readable_items(
    pool: DescriptorPool,
    kind: SingularKind,
    enum_type: Option<EnumType>,
    l: Seq<ValueModel>,
    depth: nat,
)
    requires
        forall|i: int|
            0 <= i < l.len() ==> readable_element(pool, kind, enum_type, #[trigger] l[i], depth),
    ensures
        readable_items(pool, kind, enum_type, l, depth),
    decreases l.len(),
{
    if l.len() > 0 {
        let t = l.subrange(1, l.len() as int);
        assert forall|i: int| 0 <= i < t.len() implies readable_element(
            pool,
            kind,
            enum_type,
            #[trigger] t[i],
            depth,
        ) by {
            assert(t[i] == l[i + 1]);
        }
        lemma_readable_items(pool, kind, enum_type, t, depth);
        assert(readable_element(pool, kind, enum_type, l[0], depth));
    }
}

proof fn lemma_readable_entries(
    pool: DescriptorPool,
    kind: SingularKind,
    enum_type: Option<EnumType>,
    e: Seq<(KeyModel, ValueModel)>,
    depth: nat,
)
    requires
        forall|i: int|
            0 <= i < e.len() ==> readable_held(
                pool,
                kind,
                enum_type,
                (#[trigger] e[i]).1,
                depth,
            ),
    ensures
        readable_entries(pool, kind, enum_type, e, depth),
    decreases e.len(),
{
    if e.len() > 0 {
        let t = e.subrange(1, e.len() as int);
        assert forall|i: int| 0 <= i < t.len() implies readable_held(
            pool,
            kind,
            enum_type,
            (#[trigger] t[i]).1,
            depth,
        ) by {
            assert(t[i] == e[i + 1]);
        }
        lemma_readable_entries(pool, kind, enum_type, t, depth);
        assert(readable_held(pool, kind, enum_type, e[0].1, depth));
    }
}

/// A message that decoding makes is read back.
pub proof fn lemma_regular_readable(m: MessageModel, d0: nat, d: nat)
    requires
        pool_linked(m.pool),
        regular(m, d0),
        d0 <= d,
        within_levels(m, d),
    ensures
        readable(m, d),
    decreases m, 2nat,
{
    assert forall|i: int| 0 <= i < m.unknown.len() implies stays_unknown(
        m,
        #[trigger] m.unknown[i],
        d,
    ) by {
        lemma_stays_deeper(m, m.unknown[i], d0, d);
    }
    assert(oneofs_exclusive(m)) by {
        assert forall|i: int, j: int|
            #![trigger m.fields[i], m.fields[j]]
            0 <= i < j < m.fields.len() && shown_in(m.pool, m.index, m.fields[i]) && shown_in(
                m.pool,
                m.index,
                m.fields[j],
            ) implies !in_oneof(
            m.pool,
            m.index,
            field_of(m.pool, m.index, m.fields[j].0)->Some_0.oneof_index,
            m.fields[i].0,
        ) by {
            assert(!shares_oneof(m.pool, m.index, m.fields[j].0, m.fields[i].0));
        }
    }
    assert forall|i: int|
        0 <= i < m.fields.len() && shown_in(
            m.pool,
            m.index,
            #[trigger] m.fields[i],
        ) implies readable_value(
        m.pool,
        field_of(m.pool, m.index, m.fields[i].0)->Some_0,
        m.fields[i].1,
        d,
    ) by {
        assert(regular_field(m.pool, m.index, m.fields[i], d0));
        assert(value_within(m.fields[i].1, d));
        lemma_field_of(m.pool, m.index, m.fields[i].0);
        assert(decreases_to!(m => m.fields));
        assert(decreases_to!(m.fields => m.fields[i]));
        assert(decreases_to!(m.fields[i] => m.fields[i].1));
        lemma_value_readable(
            m.pool,
            field_of(m.pool, m.index, m.fields[i].0)->Some_0,
            m.fields[i].1,
            d0,
            d,
        );
    }
    lemma_readable_fields(m.pool, m.index, m.fields, d);
}

proof fn lemma_value_readable(
    pool: DescriptorPool,
    fd: FieldDescriptor,
    v: ValueModel,
    d0: nat,
    d: nat,
)
    requires
        pool_linked(pool),
        kind_linked(pool, fd.kind),
        regular_value(pool, fd.kind, fd.enum_type, v, d0),
        d0 <= d,
        value_within(v, d),
    ensures
        readable_value(pool, fd, v, d),
    decreases v, 1nat,
{
    match (fd.kind, v) {
        (FieldKind::Singular(k), _) => {
            lemma_element_readable(pool, k, fd.enum_type, v, d0, d);
        },
        (FieldKind::List(k), ValueModel::List(l)) => {
            assert(decreases_to!(v => v->List_0));
            assert forall|i: int| 0 <= i < l.len() implies readable_element(
                pool,
                k,
                fd.enum_type,
                #[trigger] l[i],
                d,
            ) by {
                assert(decreases_to!(l => l[i]));
                assert(regular_element(pool, k, fd.enum_type, l[i], d0));
                assert(element_within(l[i], d));
                lemma_element_readable(pool, k, fd.enum_type, l[i], d0, d);
            }
            lemma_readable_items(pool, k, fd.enum_type, l, d);
        },
        (FieldKind::Mapping { key, value }, ValueModel::Mapping(e)) => {
            assert(decreases_to!(v => v->Mapping_0));
            assert forall|i: int| 0 <= i < e.len() implies readable_held(
                pool,
                value,
                fd.enum_type,
                (#[trigger] e[i]).1,
                d,
            ) by {
                assert(decreases_to!(e => e[i]));
                assert(decreases_to!(e[i] => e[i].1));
                assert(regular_held(pool, value, e[i].1, d0));
                assert(element_within(e[i].1, d));
                if let ValueModel::Message(x) = e[i].1 {
                    assert(decreases_to!(e[i].1 => e[i].1->Message_0));
                    if d0 > 0 && regular(x, (d0 - 1) as nat) {
                        lemma_regular_readable(x, (d0 - 1) as nat, (d - 1) as nat);
                    } else if let SingularKind::Message(ix) = value {
                        lemma_empty_readable(pool, ix, (d - 1) as nat);
                    }
                }
            }
            lemma_readable_entries(pool, value, fd.enum_type, e, d);
        },
        _ => {},
    }
}

proof fn lemma_empty_readable(pool: DescriptorPool, index: MessageIndex, depth: nat)
    requires
        pool_linked(pool),
        index.0 < pool.message_seq().len(),
    ensures
        readable(empty_message(pool, index), depth),
{
}

proof fn lemma_element_readable(
    pool: DescriptorPool,
    kind: SingularKind,
    enum_type: Option<EnumType>,
    v: ValueModel,
    d0: nat,
    d: nat,
)
    requires
        pool_linked(pool),
        regular_element(pool, kind, enum_type, v, d0),
        d0 <= d,
        element_within(v, d),
    ensures
        readable_element(pool, kind, enum_type, v, d),
    decreases v, 0nat,
{
    if let (SingularKind::Message(_), ValueModel::Message(x)) = (kind, v) {
        assert(decreases_to!(v => v->Message_0));
        lemma_regular_readable(x, (d0 - 1) as nat, (d - 1) as nat);
    }
}

// ── The canonical form is written as the message is ─────────────────────────

proof fn lemma_read_items(l: Seq<ValueModel>)
    ensures
        read_items(l).len() == l.len(),
        forall|i: int| 0 <= i < l.len() ==> #[trigger] read_items(l)[i] == read_value(l[i]),
    decreases l.len(),
{
    if l.len() > 0 {
        let t = l.subrange(1, l.len() as int);
        lemma_read_items(t);
        assert forall|i: int| 0 <= i < l.len() implies #[trigger] read_items(l)[i] == read_value(
            l[i],
        ) by {
            if i > 0 {
                assert(read_items(t)[i - 1] == read_value(t[i - 1]));
            }
        }
    }
}

/// Entries that are read back are entries that do not stray.
proof fn lemma_read_entry(
    pool: DescriptorPool,
    kind: SingularKind,
    enum_type: Option<EnumType>,
    e: Seq<(KeyModel, ValueModel)>,
    k: int,
) -> (j: int)
    requires
        0 <= k < read_entries(pool, kind, enum_type, e).len(),
    ensures
        0 <= j < e.len(),
        read_entries(pool, kind, enum_type, e)[k] == (e[j].0, read_value(e[j].1)),
    decreases e.len(),
{
    let t = e.subrange(1, e.len() as int);
    let r = read_entries(pool, kind, enum_type, t);
    if strays(pool, kind, enum_type, e[0].1) {
        lemma_read_entry(pool, kind, enum_type, t, k) + 1
    } else if k == 0 {
        0
    } else {
        assert(read_entries(pool, kind, enum_type, e)[k] == r[k - 1]);
        lemma_read_entry(pool, kind, enum_type, t, k - 1) + 1
    }
}

/// Entries that are in order are read back in order.
proof fn lemma_read_sorted(
    pool: DescriptorPool,
    kind: SingularKind,
    enum_type: Option<EnumType>,
    e: Seq<(KeyModel, ValueModel)>,
)
    requires
        entries_sorted(e),
    ensures
        entries_sorted(read_entries(pool, kind, enum_type, e)),
    decreases e.len(),
{
    if e.len() > 0 {
        let t = e.subrange(1, e.len() as int);
        let u = read_entries(pool, kind, enum_type, t);
        let r = read_entries(pool, kind, enum_type, e);
        assert(entries_sorted(t)) by {
            assert forall|i: int, j: int| 0 <= i < j < t.len() implies key_before(
                (#[trigger] t[i]).0,
                (#[trigger] t[j]).0,
            ) by {
                assert(t[i] == e[i + 1] && t[j] == e[j + 1]);
            }
        }
        lemma_read_sorted(pool, kind, enum_type, t);
        if !strays(pool, kind, enum_type, e[0].1) {
            assert forall|i: int, j: int| 0 <= i < j < r.len() implies key_before(
                (#[trigger] r[i]).0,
                (#[trigger] r[j]).0,
            ) by {
                assert(r[j] == u[j - 1]);
                if i == 0 {
                    let k = lemma_read_entry(pool, kind, enum_type, t, j - 1);
                    assert(t[k] == e[k + 1]);
                } else {
                    assert(r[i] == u[i - 1]);
                }
            }
        }
    }
}

/// A value that is in order is read back with its entries in order.
proof fn lemma_normal_read(
    pool: DescriptorPool,
    kind: FieldKind,
    enum_type: Option<EnumType>,
    v: ValueModel,
)
    requires
        value_fits(kind, v, pool),
        value_ordered(v),
    ensures
        normal_value(read_stored(pool, kind, enum_type, v)) == read_stored(
            pool,
            kind,
            enum_type,
            v,
        ),
{
    if let (FieldKind::Mapping { key, value }, ValueModel::Mapping(e)) = (kind, v) {
        lemma_read_sorted(pool, value, enum_type, e);
        lemma_normal_entries_id(read_entries(pool, value, enum_type, e));
    }
}

proof fn lemma_read_fields_normal(
    pool: DescriptorPool,
    index: MessageIndex,
    fields: Seq<(u32, ValueModel)>,
)
    requires
        forall|i: int| 0 <= i < fields.len() ==> value_ordered((#[trigger] fields[i]).1),
    ensures
        normal_fields(read_fields(pool, index, fields)) == read_fields(pool, index, fields),
    decreases fields.len(),
{
    let r = read_fields(pool, index, fields);
    if fields.len() > 0 {
        let t = fields.subrange(0, fields.len() - 1);
        let f = fields[fields.len() - 1];
        lemma_read_fields_normal(pool, index, t);
        let u = read_fields(pool, index, t);
        if shown_in(pool, index, f) {
            let fd = field_of(pool, index, f.0)->Some_0;
            lemma_normal_read(pool, fd.kind, fd.enum_type, f.1);
        }
        assert forall|i: int| 0 <= i < r.len() implies normal_fields(r)[i] == r[i] by {
            if i < u.len() {
                assert(normal_fields(u)[i] == u[i]);
                assert(r[i] == u[i]);
            }
        }
    }
    assert(normal_fields(r) =~= r);
}

/// A message that is in order is read back with its maps in order already.
proof fn lemma_canonical_read(m: MessageModel)
    requires
        ordered(m),
    ensures
        canonical(m) == read_message(m),
{
    lemma_read_fields_normal(m.pool, m.index, m.fields);
}

proof fn lemma_no_stray_entries(
    pool: DescriptorPool,
    number: u32,
    key: ScalarType,
    kind: SingularKind,
    enum_type: Option<EnumType>,
    e: Seq<(KeyModel, ValueModel)>,
)
    requires
        forall|i: int| 0 <= i < e.len() ==> !strays(pool, kind, enum_type, (#[trigger] e[i]).1),
    ensures
        stray_entries(pool, number, key, kind, enum_type, e) == Seq::<UnknownEntry>::empty(),
    decreases e.len(),
{
    if e.len() > 0 {
        let t = e.subrange(1, e.len() as int);
        assert forall|i: int| 0 <= i < t.len() implies !strays(
            pool,
            kind,
            enum_type,
            (#[trigger] t[i]).1,
        ) by {
            assert(t[i] == e[i + 1]);
        }
        lemma_no_stray_entries(pool, number, key, kind, enum_type, t);
        assert(!strays(pool, kind, enum_type, e[0].1));
    }
}

/// Entries that stray are those of some field.
proof fn lemma_stray_source(
    pool: DescriptorPool,
    index: MessageIndex,
    fields: Seq<(u32, ValueModel)>,
) -> (i: int)
    requires
        stray_fields(pool, index, fields).len() > 0,
    ensures
        0 <= i < fields.len(),
        has_strays(pool, index, fields[i]),
    decreases fields.len(),
{
    let last = fields.len() - 1;
    if has_strays(pool, index, fields[last]) {
        last
    } else {
        lemma_stray_source(pool, index, fields.subrange(0, last))
    }
}

/// Where no entry strays, the unknown fields are those that were there.
proof fn lemma_no_strays(m: MessageModel)
    requires
        settled(m),
    ensures
        stray_fields(m.pool, m.index, m.fields) + m.unknown == m.unknown,
{
    let us = stray_fields(m.pool, m.index, m.fields);
    if us.len() > 0 {
        let i = lemma_stray_source(m.pool, m.index, m.fields);
        let f = m.fields[i];
        assert(settled_field(m.pool, m.index, f));
        lemma_settled_value(m.pool, field_of(m.pool, m.index, f.0)->Some_0, f.1);
    }
    assert(us + m.unknown =~= m.unknown);
}

/// The bytes of unknown fields stand one behind the other.
proof fn lemma_unknown_joined(a: Seq<UnknownEntry>, b: Seq<UnknownEntry>)
    ensures
        unknown_bytes(a + b) == unknown_bytes(a) + unknown_bytes(b),
    decreases a.len(),
{
    if a.len() == 0 {
        assert(a + b =~= b);
        assert(unknown_bytes(a) + unknown_bytes(b) =~= unknown_bytes(b));
    } else {
        let t = a.subrange(1, a.len() as int);
        let head = tag_bytes(a[0].number, payload_wire(a[0].data)) + payload_bytes(a[0]);
        lemma_unknown_joined(t, b);
        assert((a + b).subrange(1, (a + b).len() as int) =~= t + b);
        assert((a + b)[0] == a[0]);
        assert(head + (unknown_bytes(t) + unknown_bytes(b)) =~= head + unknown_bytes(t)
            + unknown_bytes(b));
    }
}

/// The bytes of one field.
spec fn one_bytes(pool: DescriptorPool, index: MessageIndex, f: (u32, ValueModel)) -> Seq<u8> {
    match field_of(pool, index, f.0) {
        Some(fd) => stored_bytes(fd, f.1, pool),
        None => Seq::empty(),
    }
}

proof fn lemma_set_bytes_push(
    pool: DescriptorPool,
    index: MessageIndex,
    fields: Seq<(u32, ValueModel)>,
    f: (u32, ValueModel),
)
    ensures
        set_bytes(pool, index, fields.push(f)) == set_bytes(pool, index, fields) + one_bytes(
            pool,
            index,
            f,
        ),
    decreases fields.len(),
{
    let more = fields.push(f);
    if fields.len() == 0 {
        let none = more.subrange(1, 1);
        assert(none =~= Seq::<(u32, ValueModel)>::empty());
        assert(set_bytes(pool, index, none) =~= Seq::<u8>::empty());
        assert(set_bytes(pool, index, fields) =~= Seq::<u8>::empty());
        assert(set_bytes(pool, index, more) =~= one_bytes(pool, index, f) + set_bytes(
            pool,
            index,
            none,
        ));
        assert(set_bytes(pool, index, more) =~= set_bytes(pool, index, fields) + one_bytes(
            pool,
            index,
            f,
        ));
    } else {
        let t = fields.subrange(1, fields.len() as int);
        lemma_set_bytes_push(pool, index, t, f);
        assert(more.subrange(1, more.len() as int) =~= t.push(f));
        let a = one_bytes(pool, index, fields[0]);
        assert(more[0] == fields[0]);
        assert(set_bytes(pool, index, more) == a + set_bytes(pool, index, t.push(f)));
        assert(a + (set_bytes(pool, index, t) + one_bytes(pool, index, f)) =~= (a + set_bytes(
            pool,
            index,
            t,
        )) + one_bytes(pool, index, f));
    }
}

/// A field that is not shown has no bytes.
proof fn lemma_hidden_bytes(fd: FieldDescriptor, v: ValueModel, pool: DescriptorPool)
    requires
        !shown(fd, v, pool),
    ensures
        stored_bytes(fd, v, pool) == Seq::<u8>::empty(),
{
    if let (FieldKind::Mapping { key, value }, ValueModel::Mapping(e)) = (fd.kind, v) {
        if e.len() == 0 {
            assert(entries_bytes(fd.number, key, value, e) == Seq::<u8>::empty());
        }
    }
}

/// The canonical form of a message is written as the message is, if nothing but
/// unknown fields is written behind the entries that stray.
pub proof fn law_canonical_bytes(m: MessageModel)
    requires
        ordered(m),
        strays_last(m),
    ensures
        message_bytes(canonical(m)) == message_bytes(m),
    decreases m, 4nat,
{
    lemma_canonical_read(m);
    assert(decreases_to!(m => m.fields));
    lemma_fields_bytes(m.pool, m.index, m.fields);
    let us = stray_fields(m.pool, m.index, m.fields);
    let r = set_bytes(m.pool, m.index, read_fields(m.pool, m.index, m.fields));
    lemma_unknown_joined(us, m.unknown);
    assert(r + (unknown_bytes(us) + unknown_bytes(m.unknown)) =~= r + unknown_bytes(us)
        + unknown_bytes(m.unknown));
}

proof fn lemma_fields_bytes(
    pool: DescriptorPool,
    index: MessageIndex,
    fields: Seq<(u32, ValueModel)>,
)
    requires
        forall|i: int| 0 <= i < fields.len() ==> value_ordered((#[trigger] fields[i]).1),
        forall|i: int| 0 <= i < fields.len() ==> field_last(pool, index, #[trigger] fields[i]),
        fields_last(pool, index, fields),
    ensures
        set_bytes(pool, index, read_fields(pool, index, fields)) + unknown_bytes(
            stray_fields(pool, index, fields),
        ) == set_bytes(pool, index, fields),
    decreases fields, 3nat,
{
    if fields.len() == 0 {
        assert(set_bytes(pool, index, read_fields(pool, index, fields)) + unknown_bytes(
            stray_fields(pool, index, fields),
        ) =~= set_bytes(pool, index, fields));
    } else {
        let last = fields.len() - 1;
        let t = fields.subrange(0, last);
        let f = fields[last];
        assert(decreases_to!(fields => t));
        assert(fields_last(pool, index, t)) by {
            assert forall|i: int, j: int|
                #![trigger t[i], t[j]]
                0 <= i < j < t.len() && has_strays(pool, index, t[i]) && shown_in(
                    pool,
                    index,
                    t[j],
                ) implies only_strays(pool, index, t[j]) by {
                assert(t[i] == fields[i] && t[j] == fields[j]);
            }
        }
        lemma_fields_bytes(pool, index, t);
        assert(t.push(f) =~= fields);
        lemma_set_bytes_push(pool, index, t, f);
        let u = read_fields(pool, index, t);
        let us = stray_fields(pool, index, t);
        let a = set_bytes(pool, index, u);
        let b = unknown_bytes(us);
        if shown_in(pool, index, f) {
            let fd = field_of(pool, index, f.0)->Some_0;
            let r = read_stored(pool, fd.kind, fd.enum_type, f.1);
            let more = stray_value(pool, fd, f.1);
            let c = stored_bytes(fd, r, pool);
            let d = unknown_bytes(more);
            assert(decreases_to!(fields => fields[last]));
            assert(decreases_to!(fields[last] => fields[last].1));
            assert(field_last(pool, index, f));
            lemma_value_bytes(pool, fd, f.1);
            lemma_set_bytes_push(pool, index, u, (f.0, r));
            lemma_unknown_joined(us, more);
            if us.len() > 0 {
                let i = lemma_stray_source(pool, index, t);
                assert(fields[i] == t[i]);
                assert(only_strays(pool, index, fields[last]));
            } else {
                assert(b =~= Seq::<u8>::empty());
            }
            if is_bare(r) {
                lemma_bare_bytes(fd, r, pool);
                assert(a + (b + d) =~= (a + b) + (c + d));
            } else {
                assert((a + c) + (b + d) =~= (a + b) + (c + d));
            }
        } else {
            if let Some(fd) = field_of(pool, index, f.0) {
                lemma_hidden_bytes(fd, f.1, pool);
            }
            assert(set_bytes(pool, index, t) + Seq::<u8>::empty() =~= set_bytes(pool, index, t));
        }
    }
}

/// A map without entries has no bytes.
proof fn lemma_bare_bytes(fd: FieldDescriptor, v: ValueModel, pool: DescriptorPool)
    requires
        is_bare(v),
    ensures
        stored_bytes(fd, v, pool) == Seq::<u8>::empty(),
{
    if let FieldKind::Mapping { key, value } = fd.kind {
        assert(entries_bytes(fd.number, key, value, v->Mapping_0) == Seq::<u8>::empty());
    }
}

/// An element that fits is read back as one that fits.
proof fn lemma_element_fits(kind: SingularKind, v: ValueModel, pool: DescriptorPool)
    ensures
        singular_fits(kind, read_value(v), pool) == singular_fits(kind, v, pool),
{
    if let ValueModel::Message(x) = v {
        assert(canonical(x).pool == x.pool && canonical(x).index == x.index);
    }
}

proof fn lemma_value_bytes(pool: DescriptorPool, fd: FieldDescriptor, v: ValueModel)
    requires
        value_ordered(v),
        value_last(pool, fd.kind, fd.enum_type, v),
        value_fits(fd.kind, v, pool),
    ensures
        stored_bytes(fd, v, pool) == stored_bytes(
            fd,
            read_stored(pool, fd.kind, fd.enum_type, v),
            pool,
        ) + unknown_bytes(stray_value(pool, fd, v)),
    decreases v, 2nat,
{
    let r = read_stored(pool, fd.kind, fd.enum_type, v);
    let us = unknown_bytes(stray_value(pool, fd, v));
    match (fd.kind, v) {
        (FieldKind::Singular(k), _) => {
            lemma_element_fits(k, v, pool);
            lemma_tagged_bytes(fd.number, k, fd.delimited, v);
            assert(field_bytes(fd, r, pool) == field_bytes(fd, v, pool));
            assert(stored_bytes(fd, r, pool) + us =~= stored_bytes(fd, v, pool));
        },
        (FieldKind::List(k), ValueModel::List(l)) => {
            lemma_read_items(l);
            let x = read_items(l);
            assert(decreases_to!(v => v->List_0));
            assert forall|i: int| 0 <= i < x.len() implies singular_fits(
                k,
                #[trigger] x[i],
                pool,
            ) by {
                lemma_element_fits(k, l[i], pool);
            }
            lemma_items_bytes(fd.number, k, fd.delimited, l);
            assert(field_bytes(fd, r, pool) == field_bytes(fd, v, pool));
            assert(stored_bytes(fd, r, pool) + us =~= stored_bytes(fd, v, pool));
        },
        (FieldKind::Mapping { key, value }, ValueModel::Mapping(e)) => {
            let x = read_entries(pool, value, fd.enum_type, e);
            assert(decreases_to!(v => v->Mapping_0));
            assert forall|i: int| 0 <= i < x.len() implies key_fits(key, (#[trigger] x[i]).0)
                && singular_fits(value, x[i].1, pool) by {
                let j = lemma_read_entry(pool, value, fd.enum_type, e, i);
                lemma_element_fits(value, e[j].1, pool);
                assert(key_fits(key, e[j].0));
            }
            lemma_entries_bytes(pool, fd.number, key, value, fd.enum_type, e);
        },
        _ => {},
    }
}

proof fn lemma_tagged_bytes(number: u32, kind: SingularKind, delimited: bool, v: ValueModel)
    requires
        value_ordered(v),
        element_last(v),
    ensures
        tagged_bytes(number, kind, delimited, read_value(v)) == tagged_bytes(
            number,
            kind,
            delimited,
            v,
        ),
        element_bytes(kind, read_value(v)) == element_bytes(kind, v),
    decreases v, 1nat,
{
    match v {
        ValueModel::Message(x) => {
            assert(decreases_to!(v => v->Message_0));
            law_canonical_bytes(x);
        },
        _ => {},
    }
}

proof fn lemma_items_bytes(number: u32, kind: SingularKind, delimited: bool, l: Seq<ValueModel>)
    requires
        forall|i: int| 0 <= i < l.len() ==> value_ordered(#[trigger] l[i]),
        forall|i: int| 0 <= i < l.len() ==> element_last(#[trigger] l[i]),
    ensures
        repeated_bytes(number, kind, delimited, read_items(l)) == repeated_bytes(
            number,
            kind,
            delimited,
            l,
        ),
        packed_bytes(kind, read_items(l)) == packed_bytes(kind, l),
    decreases l, 1nat,
{
    if l.len() > 0 {
        let t = l.subrange(1, l.len() as int);
        assert(decreases_to!(l => t));
        assert(decreases_to!(l => l[0]));
        lemma_items_bytes(number, kind, delimited, t);
        lemma_tagged_bytes(number, kind, delimited, l[0]);
        let r = read_items(l);
        assert(r.subrange(1, r.len() as int) =~= read_items(t));
        assert(r[0] == read_value(l[0]));
    }
}

proof fn lemma_entries_bytes(
    pool: DescriptorPool,
    number: u32,
    key: ScalarType,
    value: SingularKind,
    enum_type: Option<EnumType>,
    e: Seq<(KeyModel, ValueModel)>,
)
    requires
        forall|i: int| 0 <= i < e.len() ==> value_ordered((#[trigger] e[i]).1),
        forall|i: int| 0 <= i < e.len() ==> element_last((#[trigger] e[i]).1),
        entries_last(pool, value, enum_type, e),
    ensures
        entries_bytes(number, key, value, e) == entries_bytes(
            number,
            key,
            value,
            read_entries(pool, value, enum_type, e),
        ) + unknown_bytes(stray_entries(pool, number, key, value, enum_type, e)),
        e.len() > 0 && strays(pool, value, enum_type, e[0].1) ==> read_entries(
            pool,
            value,
            enum_type,
            e,
        ).len() == 0,
    decreases e, 1nat,
{
    let r = read_entries(pool, value, enum_type, e);
    let us = stray_entries(pool, number, key, value, enum_type, e);
    let none = Seq::<u8>::empty();
    if e.len() == 0 {
        assert(none + unknown_bytes(us) =~= none);
    } else {
        let t = e.subrange(1, e.len() as int);
        let u = read_entries(pool, value, enum_type, t);
        let more = stray_entries(pool, number, key, value, enum_type, t);
        let head = tag_bytes(number, WireType::LengthDelimited) + delimited_bytes(
            entry_bytes(key, value, e[0]),
        );
        assert(decreases_to!(e => t));
        assert(decreases_to!(e => e[0]));
        assert(decreases_to!(e[0] => e[0].1));
        assert(entries_last(pool, value, enum_type, t)) by {
            assert forall|i: int, j: int|
                #![trigger t[i], t[j]]
                0 <= i < j < t.len() && strays(
                    pool,
                    value,
                    enum_type,
                    t[i].1,
                ) implies strays(pool, value, enum_type, t[j].1) by {
                assert(t[i] == e[i + 1] && t[j] == e[j + 1]);
            }
        }
        lemma_entries_bytes(pool, number, key, value, enum_type, t);
        if strays(pool, value, enum_type, e[0].1) {
            if t.len() > 0 {
                assert(t[0] == e[1]);
            }
            assert(us.subrange(1, us.len() as int) =~= more);
            assert(us[0].data == UnknownPayload::LengthDelimited(entry_bytes(key, value, e[0])));
            assert(payload_bytes(us[0]) == delimited_bytes(entry_bytes(key, value, e[0])));
            assert(unknown_bytes(us) == head + unknown_bytes(more));
            assert(u =~= Seq::empty());
            assert(r =~= Seq::empty());
            assert(entries_bytes(number, key, value, u) == none);
            assert(none + unknown_bytes(more) =~= unknown_bytes(more));
            assert(none + unknown_bytes(us) =~= unknown_bytes(us));
        } else {
            let x = (e[0].0, read_value(e[0].1));
            lemma_tagged_bytes(number, value, false, e[0].1);
            assert(r.subrange(1, r.len() as int) =~= u);
            assert(r[0] == x);
            assert(entry_bytes(key, value, x) == entry_bytes(key, value, e[0]));
            let b = entries_bytes(number, key, value, u);
            assert(entries_bytes(number, key, value, r) == head + b);
            assert(head + (b + unknown_bytes(us)) =~= head + b + unknown_bytes(us));
        }
    }
}

// ── The laws ────────────────────────────────────────────────────────────────

/// Decoding makes messages in order, with no two members of a oneof set, every
/// value fitting its field, and unknown fields such as stay unknown.
pub proof fn law_decoded(pool: DescriptorPool, index: MessageIndex, s: Seq<u8>, o: DecodeOptions)
    requires
        pool_linked(pool),
        index.0 < pool.message_seq().len(),
    ensures
        decoded(pool, index, s, o) matches Ok(m) ==> {
            &&& m.pool == pool
            &&& m.index == index
            &&& ordered(m)
            &&& exclusive(m)
            &&& regular(m, o.recursion_limit as nat)
        },
{
    let x = empty_message(pool, index);
    let depth = o.recursion_limit as nat;
    if s.len() <= o.max_message_size {
        lemma_empty_regular(pool, index, depth);
        lemma_ordered_loosely(x);
        lemma_message_kept(x, s, None, depth, full_budget(o));
    }
}

/// What was decoded can be encoded and decoded again, within limits that leave
/// room for it. What comes back is the message in canonical form, with every
/// unknown field it had, and in front of them the entries of its maps that
/// stray. It is encoded to the same bytes, if nothing else is written behind an
/// entry that strays.
pub proof fn law_reencode(
    pool: DescriptorPool,
    index: MessageIndex,
    s: Seq<u8>,
    o: DecodeOptions,
    again: DecodeOptions,
)
    requires
        pool_linked(pool),
        index.0 < pool.message_seq().len(),
        decoded(pool, index, s, o) is Ok,
        again.recursion_limit >= o.recursion_limit,
        ({
            let m = decoded(pool, index, s, o)->Ok_0;
            &&& within_levels(m, again.recursion_limit as nat)
            &&& covers(full_budget(again), message_cost(m))
            &&& message_bytes(m).len() <= again.max_message_size
        }),
    ensures
        ({
            let m = decoded(pool, index, s, o)->Ok_0;
            &&& decoded(pool, index, message_bytes(m), again) == Ok::<MessageModel, DecodeError>(
                canonical(m),
            )
            &&& canonical(m).unknown == stray_fields(pool, index, m.fields) + m.unknown
            &&& settled(m) ==> canonical(m).unknown == m.unknown
            &&& settled(m) || strays_last(m) ==> message_bytes(canonical(m)) == message_bytes(m)
        }),
{
    let m = decoded(pool, index, s, o)->Ok_0;
    law_decoded(pool, index, s, o);
    lemma_regular_readable(m, o.recursion_limit as nat, again.recursion_limit as nat);
    law_decode_encode(m, again);
    if settled(m) {
        lemma_settled_last(m);
        lemma_no_strays(m);
    }
    if strays_last(m) {
        law_canonical_bytes(m);
    }
}

/// What was decoded can be encoded and decoded again under the same limits, if
/// the bytes are not more than they allow, and the entries that stray leave room
/// among the unknown fields.
pub proof fn law_reencode_again(
    pool: DescriptorPool,
    index: MessageIndex,
    s: Seq<u8>,
    o: DecodeOptions,
)
    requires
        pool_linked(pool),
        index.0 < pool.message_seq().len(),
        decoded(pool, index, s, o) is Ok,
        ({
            let m = decoded(pool, index, s, o)->Ok_0;
            &&& within_levels(m, o.recursion_limit as nat)
            &&& settled(m) || message_cost(m).slots <= full_budget(o).unknown
            &&& message_bytes(m).len() <= o.max_message_size
        }),
    ensures
        ({
            let m = decoded(pool, index, s, o)->Ok_0;
            &&& decoded(pool, index, message_bytes(m), o) == Ok::<MessageModel, DecodeError>(
                canonical(m),
            )
            &&& canonical(m).unknown == stray_fields(pool, index, m.fields) + m.unknown
            &&& settled(m) ==> canonical(m).unknown == m.unknown
            &&& settled(m) || strays_last(m) ==> message_bytes(canonical(m)) == message_bytes(m)
        }),
{
    law_decoded_covered(pool, index, s, o);
    law_reencode(pool, index, s, o, o);
}

} // verus!
