//! Decoding gives back what encoding wrote.
//!
//! What comes back is the message in canonical form: without the fields that
//! encoding leaves out, with its maps in order, and with the unknown fields it
//! had. An entry of a map whose number a closed enum does not declare comes back
//! as an unknown field.
use vstd::prelude::*;
use crate::decode::{decoded, full_budget, DecodeOptions};
use crate::descriptor::{
    enum_is_closed, enum_knows, field_of, lemma_field_of, pool_linked, DescriptorPool, EnumIndex,
    EnumType, FieldDescriptor, FieldKind, MessageIndex, ScalarType, SingularKind,
};
use crate::encode::{
    element_bytes, entries_bytes, entry_bytes, field_bytes, message_bytes, packed_bytes,
    repeated_bytes, set_bytes, skips, stored_bytes, tagged_bytes,
};
use crate::merge::{
    add_entry, charge, clear_members, clear_oneof, element_cost, entry_cost, merge_body,
    merge_field, merge_fields, merge_list, merge_map, merge_message, merge_packed,
    merge_packed_closed, merge_unknown, normal_message, take_closed_entry, take_element, take_entry,
    with_unknown, Budget, ClosedValue,
};
use crate::scalar::{
    element_wire, int32_bytes, key_bytes, key_wire, lemma_take_int32_bytes, lemma_take_key_bytes,
    lemma_take_scalar_bytes, packable, scalar_bytes, wire_admits,
};
use crate::shape::{key_fits, scalar_fits, singular_fits, value_fits};
use crate::unknown::{
    entry_depth, entry_slots, entry_sound, lemma_take_payload_bytes, payload_bytes, payload_wire,
    unknown_bytes, unknown_depth, unknown_slots, unknown_sound, UnknownEntry, UnknownPayload,
};
use crate::value::{
    empty_message, field_del, field_get, field_put, fields_sorted, list_at, with_field, KeyModel,
    MessageModel, ValueModel,
};
use crate::wire::{
    delimited_bytes, lemma_take_delimited_bytes, lemma_take_tag, lemma_take_tag_bytes,
    lemma_varint_bytes_len, signed32, tag_bytes, take_delimited, varint_bytes, wrap64, DecodeError,
    Tag, WireType, MAX_FIELD_NUMBER,
};

verus! {

// ── The canonical form ──────────────────────────────────────────────────────

/// The field is written, and written as more than nothing.
pub open spec fn shown(fd: FieldDescriptor, v: ValueModel, pool: DescriptorPool) -> bool {
    &&& !skips(fd, v)
    &&& value_fits(fd.kind, v, pool)
    &&& !(v matches ValueModel::List(l) && l.len() == 0)
    &&& !(v matches ValueModel::Mapping(e) && e.len() == 0)
}

/// A field of the message is written, and written as more than nothing.
pub open spec fn shown_in(pool: DescriptorPool, index: MessageIndex, f: (u32, ValueModel)) -> bool {
    field_of(pool, index, f.0) matches Some(fd) && shown(fd, f.1, pool)
}

/// The value is a number that the closed enum of its map does not declare.
pub open spec fn strays(
    pool: DescriptorPool,
    kind: SingularKind,
    enum_type: Option<EnumType>,
    v: ValueModel,
) -> bool {
    match (kind, v) {
        (SingularKind::Enum(e), ValueModel::EnumNumber(n)) => !enum_knows(pool, e, enum_type, n),
        _ => false,
    }
}

/// The entries that stray, each as the unknown field that it is read back as.
pub open spec fn stray_entries(
    pool: DescriptorPool,
    number: u32,
    key: ScalarType,
    kind: SingularKind,
    enum_type: Option<EnumType>,
    e: Seq<(KeyModel, ValueModel)>,
) -> Seq<UnknownEntry>
    decreases e.len(),
{
    if e.len() == 0 {
        Seq::empty()
    } else {
        let rest = stray_entries(
            pool,
            number,
            key,
            kind,
            enum_type,
            e.subrange(1, e.len() as int),
        );
        if strays(pool, kind, enum_type, e[0].1) {
            seq![
                UnknownEntry {
                    number,
                    data: UnknownPayload::LengthDelimited(entry_bytes(key, kind, e[0])),
                },
            ] + rest
        } else {
            rest
        }
    }
}

/// The entries of the field that stray.
pub open spec fn stray_value(pool: DescriptorPool, fd: FieldDescriptor, v: ValueModel) -> Seq<
    UnknownEntry,
> {
    match (fd.kind, v) {
        (FieldKind::Mapping { key, value }, ValueModel::Mapping(e)) => stray_entries(
            pool,
            fd.number,
            key,
            value,
            fd.enum_type,
            e,
        ),
        _ => Seq::empty(),
    }
}

/// The entries of the fields that stray, in the order in which they are written.
pub open spec fn stray_fields(
    pool: DescriptorPool,
    index: MessageIndex,
    fields: Seq<(u32, ValueModel)>,
) -> Seq<UnknownEntry>
    decreases fields.len(),
{
    if fields.len() == 0 {
        Seq::empty()
    } else {
        let prev = stray_fields(pool, index, fields.subrange(0, fields.len() - 1));
        let f = fields[fields.len() - 1];
        if shown_in(pool, index, f) {
            prev + stray_value(pool, field_of(pool, index, f.0)->Some_0, f.1)
        } else {
            prev
        }
    }
}

/// No entry of a map strays, however deep. In a message that was decoded, one
/// strays only where it came without a value and was given the number 0, and the
/// closed enum does not declare it.
pub open spec fn settled(m: MessageModel) -> bool
    decreases m,
{
    forall|i: int|
        0 <= i < m.fields.len() ==> settled_field(m.pool, m.index, #[trigger] m.fields[i])
}

/// No entry of the field strays.
pub open spec fn settled_field(
    pool: DescriptorPool,
    index: MessageIndex,
    f: (u32, ValueModel),
) -> bool
    decreases f,
{
    field_of(pool, index, f.0) matches Some(fd) ==> settled_value(
        pool,
        fd.kind,
        fd.enum_type,
        f.1,
    )
}

/// No entry in the value of the field strays.
pub open spec fn settled_value(
    pool: DescriptorPool,
    kind: FieldKind,
    enum_type: Option<EnumType>,
    v: ValueModel,
) -> bool
    decreases v, 1nat,
{
    match (kind, v) {
        (FieldKind::Mapping { key, value }, ValueModel::Mapping(e)) => forall|i: int|
            0 <= i < e.len() ==> !strays(pool, value, enum_type, (#[trigger] e[i]).1)
                && settled_element(e[i].1),
        (_, ValueModel::List(l)) => forall|i: int|
            0 <= i < l.len() ==> settled_element(#[trigger] l[i]),
        _ => settled_element(v),
    }
}

/// No entry in the element strays.
pub open spec fn settled_element(v: ValueModel) -> bool
    decreases v, 0nat,
{
    v matches ValueModel::Message(x) ==> settled(x)
}

/// The message in canonical form: without the fields that encoding leaves out,
/// with the entries of its maps in order but for those that stray, which are
/// unknown fields in front of the others; and so for every message in it.
pub open spec fn canonical(m: MessageModel) -> MessageModel
    decreases m, 1nat,
{
    normal_message(read_message(m))
}

/// The message as it is read back, before its maps are put in order.
pub open spec fn read_message(m: MessageModel) -> MessageModel
    decreases m, 0nat,
{
    MessageModel {
        fields: read_fields(m.pool, m.index, m.fields),
        unknown: stray_fields(m.pool, m.index, m.fields) + m.unknown,
        ..m
    }
}

/// A map without entries.
pub open spec fn is_bare(v: ValueModel) -> bool {
    v matches ValueModel::Mapping(e) && e.len() == 0
}

/// The fields as they are read back.
pub open spec fn read_fields(
    pool: DescriptorPool,
    index: MessageIndex,
    fields: Seq<(u32, ValueModel)>,
) -> Seq<(u32, ValueModel)>
    decreases fields, 0nat,
{
    if fields.len() == 0 {
        Seq::empty()
    } else {
        let prev = read_fields(pool, index, fields.subrange(0, fields.len() - 1));
        let f = fields[fields.len() - 1];
        if shown_in(pool, index, f) {
            let fd = field_of(pool, index, f.0)->Some_0;
            let v = read_stored(pool, fd.kind, fd.enum_type, f.1);
            if is_bare(v) {
                prev
            } else {
                prev.push((f.0, v))
            }
        } else {
            prev
        }
    }
}

/// The value of a field as it is read back.
pub open spec fn read_stored(
    pool: DescriptorPool,
    kind: FieldKind,
    enum_type: Option<EnumType>,
    v: ValueModel,
) -> ValueModel
    decreases v, 1nat,
{
    match (kind, v) {
        (FieldKind::Mapping { key, value }, ValueModel::Mapping(e)) => ValueModel::Mapping(
            read_entries(pool, value, enum_type, e),
        ),
        (_, ValueModel::List(l)) => ValueModel::List(read_items(l)),
        _ => read_value(v),
    }
}

/// An element as it is read back.
pub open spec fn read_value(v: ValueModel) -> ValueModel
    decreases v, 0nat,
{
    match v {
        ValueModel::Message(m) => ValueModel::Message(canonical(m)),
        _ => v,
    }
}

/// The elements of a list as they are read back.
pub open spec fn read_items(l: Seq<ValueModel>) -> Seq<ValueModel>
    decreases l, 0nat,
{
    if l.len() == 0 {
        Seq::empty()
    } else {
        seq![read_value(l[0])] + read_items(l.subrange(1, l.len() as int))
    }
}

/// The entries of a map as they are read back.
pub open spec fn read_entries(
    pool: DescriptorPool,
    kind: SingularKind,
    enum_type: Option<EnumType>,
    e: Seq<(KeyModel, ValueModel)>,
) -> Seq<(KeyModel, ValueModel)>
    decreases e, 0nat,
{
    if e.len() == 0 {
        Seq::empty()
    } else {
        let rest = read_entries(pool, kind, enum_type, e.subrange(1, e.len() as int));
        if strays(pool, kind, enum_type, e[0].1) {
            rest
        } else {
            seq![(e[0].0, read_value(e[0].1))] + rest
        }
    }
}

// ── What reading costs ──────────────────────────────────────────────────────

/// Unknown fields, and memory for elements of lists and maps.
pub struct Cost {
    pub slots: nat,
    pub memory: nat,
}

pub open spec fn plus(a: Cost, b: Cost) -> Cost {
    Cost { slots: a.slots + b.slots, memory: a.memory + b.memory }
}

/// What reading a message costs.
pub open spec fn message_cost(m: MessageModel) -> Cost
    decreases m, 0nat,
{
    plus(
        fields_cost(m.pool, m.index, m.fields),
        Cost { slots: unknown_slots(m.unknown), memory: 0 },
    )
}

/// What reading fields costs.
pub open spec fn fields_cost(
    pool: DescriptorPool,
    index: MessageIndex,
    fields: Seq<(u32, ValueModel)>,
) -> Cost
    decreases fields, 0nat,
{
    if fields.len() == 0 {
        Cost { slots: 0, memory: 0 }
    } else {
        let rest = fields_cost(pool, index, fields.subrange(1, fields.len() as int));
        if shown_in(pool, index, fields[0]) {
            let fd = field_of(pool, index, fields[0].0)->Some_0;
            plus(stored_cost(pool, fd.kind, fd.enum_type, fields[0].1), rest)
        } else {
            rest
        }
    }
}

/// What reading the value of a field costs.
pub open spec fn stored_cost(
    pool: DescriptorPool,
    kind: FieldKind,
    enum_type: Option<EnumType>,
    v: ValueModel,
) -> Cost
    decreases v, 1nat,
{
    match (kind, v) {
        (FieldKind::Mapping { key, value }, ValueModel::Mapping(e)) => entries_cost(
            pool,
            value,
            enum_type,
            e,
        ),
        (_, ValueModel::List(l)) => items_cost(l),
        _ => value_cost(v),
    }
}

/// What reading an element costs.
pub open spec fn value_cost(v: ValueModel) -> Cost
    decreases v, 0nat,
{
    match v {
        ValueModel::Message(m) => message_cost(m),
        _ => Cost { slots: 0, memory: 0 },
    }
}

/// What reading the elements of a list costs.
pub open spec fn items_cost(l: Seq<ValueModel>) -> Cost
    decreases l, 0nat,
{
    if l.len() == 0 {
        Cost { slots: 0, memory: 0 }
    } else {
        plus(
            plus(value_cost(l[0]), Cost { slots: 0, memory: element_cost() }),
            items_cost(l.subrange(1, l.len() as int)),
        )
    }
}

/// What reading the entries of a map costs. One that strays is an unknown field.
pub open spec fn entries_cost(
    pool: DescriptorPool,
    kind: SingularKind,
    enum_type: Option<EnumType>,
    e: Seq<(KeyModel, ValueModel)>,
) -> Cost
    decreases e, 0nat,
{
    if e.len() == 0 {
        Cost { slots: 0, memory: 0 }
    } else {
        let rest = entries_cost(pool, kind, enum_type, e.subrange(1, e.len() as int));
        if strays(pool, kind, enum_type, e[0].1) {
            plus(Cost { slots: 1, memory: 0 }, rest)
        } else {
            plus(plus(value_cost(e[0].1), Cost { slots: 0, memory: entry_cost() }), rest)
        }
    }
}

/// The budget covers the cost.
pub open spec fn covers(b: Budget, c: Cost) -> bool {
    c.slots <= b.unknown && c.memory <= b.elements
}

/// What is left of the budget.
pub open spec fn spent(b: Budget, c: Cost) -> Budget {
    Budget { unknown: (b.unknown - c.slots) as usize, elements: (b.elements - c.memory) as usize }
}

// ── Which messages come back ────────────────────────────────────────────────

/// The number is that of a member of the oneof.
pub open spec fn in_oneof(
    pool: DescriptorPool,
    index: MessageIndex,
    oneof: Option<u16>,
    n: u32,
) -> bool {
    let md = pool.message_seq()[index.0 as int];
    oneof matches Some(oi) && oi < md.oneofs@.len() && exists|k: int|
        0 <= k < md.oneofs@[oi as int].field_indices@.len() && (
        #[trigger] md.oneofs@[oi as int].field_indices@[k]) < md.fields@.len()
            && md.fields@[md.oneofs@[oi as int].field_indices@[k] as int].number == n
}

/// No two fields that are written belong to one oneof.
pub open spec fn oneofs_exclusive(m: MessageModel) -> bool {
    forall|i: int, j: int|
        #![trigger m.fields[i], m.fields[j]]
        0 <= i < j < m.fields.len() && shown_in(m.pool, m.index, m.fields[i]) && shown_in(
            m.pool,
            m.index,
            m.fields[j],
        ) ==> !in_oneof(
            m.pool,
            m.index,
            field_of(m.pool, m.index, m.fields[j].0)->Some_0.oneof_index,
            m.fields[i].0,
        )
}

/// The varint is that of an enum number.
pub open spec fn is_number(v: u64) -> bool {
    v == wrap64(signed32(v as nat))
}

/// The entry is kept as an unknown field when it is read back: the message has
/// no such field, or the field cannot have that wire type, or it is of a closed
/// enum that does not declare the number.
pub open spec fn stays_unknown(m: MessageModel, e: UnknownEntry, depth: nat) -> bool {
    match field_of(m.pool, m.index, e.number) {
        None => true,
        Some(fd) => !wire_admits(fd.kind, payload_wire(e.data)) || match (fd.kind, e.data) {
            (
                FieldKind::Singular(SingularKind::Enum(en)),
                UnknownPayload::Varint(v),
            ) => is_number(v) && !enum_knows(
                m.pool,
                en,
                fd.enum_type,
                signed32(v as nat) as i32,
            ),
            (FieldKind::List(SingularKind::Enum(en)), UnknownPayload::Varint(v)) => is_number(v)
                && enum_is_closed(m.pool, en, fd.enum_type) && !enum_knows(
                m.pool,
                en,
                Some(EnumType::Closed),
                signed32(v as nat) as i32,
            ),
            (
                FieldKind::Mapping { key, value: SingularKind::Enum(en) },
                UnknownPayload::LengthDelimited(b),
            ) => enum_is_closed(m.pool, en, fd.enum_type) && (take_closed_entry(
                m.pool,
                key,
                en,
                b,
                depth,
                None,
                ClosedValue::Absent,
            ) matches Ok(r) && r.1 is Unknown),
            _ => false,
        },
    }
}

/// The message is read back within `depth` levels: its fields are in order, no
/// two of a oneof are written, its closed enums hold declared numbers outside of
/// maps, the messages in it live in its pool, and its unknown fields stay
/// unknown.
pub open spec fn readable(m: MessageModel, depth: nat) -> bool
    decreases m, 0nat,
{
    &&& pool_linked(m.pool)
    &&& m.index.0 < m.pool.message_seq().len()
    &&& fields_sorted(m.fields)
    &&& oneofs_exclusive(m)
    &&& unknown_sound(m.unknown)
    &&& unknown_depth(m.unknown) <= depth
    &&& forall|i: int|
        0 <= i < m.unknown.len() ==> stays_unknown(m, #[trigger] m.unknown[i], depth)
    &&& readable_fields(m.pool, m.index, m.fields, depth)
}

/// The values of the fields that are written are read back.
pub open spec fn readable_fields(
    pool: DescriptorPool,
    index: MessageIndex,
    fields: Seq<(u32, ValueModel)>,
    depth: nat,
) -> bool
    decreases fields, 0nat,
{
    fields.len() > 0 ==> {
        &&& shown_in(pool, index, fields[0]) ==> readable_value(
            pool,
            field_of(pool, index, fields[0].0)->Some_0,
            fields[0].1,
            depth,
        )
        &&& readable_fields(pool, index, fields.subrange(1, fields.len() as int), depth)
    }
}

/// The value of a field is read back.
pub open spec fn readable_value(
    pool: DescriptorPool,
    fd: FieldDescriptor,
    v: ValueModel,
    depth: nat,
) -> bool
    decreases v, 1nat,
{
    match (fd.kind, v) {
        (FieldKind::Singular(k), _) => readable_element(pool, k, fd.enum_type, v, depth),
        (FieldKind::List(k), ValueModel::List(l)) => readable_items(
            pool,
            k,
            fd.enum_type,
            l,
            depth,
        ),
        (FieldKind::Mapping { key, value }, ValueModel::Mapping(e)) => readable_entries(
            pool,
            value,
            fd.enum_type,
            e,
            depth,
        ),
        _ => true,
    }
}

/// An element is read back.
pub open spec fn readable_element(
    pool: DescriptorPool,
    kind: SingularKind,
    enum_type: Option<EnumType>,
    v: ValueModel,
    depth: nat,
) -> bool
    decreases v, 0nat,
{
    match (kind, v) {
        (SingularKind::Enum(e), ValueModel::EnumNumber(n)) => enum_knows(pool, e, enum_type, n),
        (SingularKind::Message(_), ValueModel::Message(x)) => x.pool == pool && depth > 0
            && readable(x, (depth - 1) as nat),
        _ => true,
    }
}

/// The value of a map entry is read back.
pub open spec fn readable_held(
    pool: DescriptorPool,
    kind: SingularKind,
    enum_type: Option<EnumType>,
    v: ValueModel,
    depth: nat,
) -> bool
    decreases v, 1nat,
{
    strays(pool, kind, enum_type, v) || readable_element(pool, kind, enum_type, v, depth)
}

/// The elements of a list are read back.
pub open spec fn readable_items(
    pool: DescriptorPool,
    kind: SingularKind,
    enum_type: Option<EnumType>,
    l: Seq<ValueModel>,
    depth: nat,
) -> bool
    decreases l, 0nat,
{
    l.len() > 0 ==> readable_element(pool, kind, enum_type, l[0], depth) && readable_items(
        pool,
        kind,
        enum_type,
        l.subrange(1, l.len() as int),
        depth,
    )
}

/// The values of a map are read back.
pub open spec fn readable_entries(
    pool: DescriptorPool,
    kind: SingularKind,
    enum_type: Option<EnumType>,
    e: Seq<(KeyModel, ValueModel)>,
    depth: nat,
) -> bool
    decreases e, 0nat,
{
    e.len() > 0 ==> readable_held(pool, kind, enum_type, e[0].1, depth) && readable_entries(
        pool,
        kind,
        enum_type,
        e.subrange(1, e.len() as int),
        depth,
    )
}

// ── One field at a time ─────────────────────────────────────────────────────

/// A field that merges and leaves `rest` behind is one step of the loop.
proof fn lemma_step(
    m: MessageModel,
    n: u32,
    w: WireType,
    payload: Seq<u8>,
    rest: Seq<u8>,
    end: Option<u32>,
    depth: nat,
    b: Budget,
    m1: MessageModel,
    b1: Budget,
)
    requires
        1 <= n <= MAX_FIELD_NUMBER,
        w != WireType::EndGroup,
        merge_field(m, (Tag { field_number: n, wire_type: w }), payload + rest, depth, b) == (
            m1,
            Ok::<(Seq<u8>, Budget), DecodeError>((rest, b1)),
        ),
    ensures
        merge_fields(m, tag_bytes(n, w) + payload + rest, end, depth, b) == merge_fields(
            m1,
            rest,
            end,
            depth,
            b1,
        ),
{
    let s = tag_bytes(n, w) + payload + rest;
    assert(s =~= tag_bytes(n, w) + (payload + rest));
    lemma_take_tag_bytes(n, w, payload + rest);
    lemma_take_tag(s);
}

/// A new field behind the others is put last.
proof fn lemma_put_last(fields: Seq<(u32, ValueModel)>, n: u32, v: ValueModel)
    requires
        forall|i: int| 0 <= i < fields.len() ==> (#[trigger] fields[i]).0 < n,
    ensures
        field_get(fields, n) is None,
        field_put(fields, n, v) == fields.push((n, v)),
{
    lemma_absent(fields, n);
    if fields.len() > 0 {
        assert(fields[fields.len() - 1].0 < n);
    }
}

proof fn lemma_absent(fields: Seq<(u32, ValueModel)>, n: u32)
    requires
        forall|i: int| 0 <= i < fields.len() ==> (#[trigger] fields[i]).0 != n,
    ensures
        field_get(fields, n) is None,
        field_del(fields, n) == fields,
    decreases fields.len(),
{
    if fields.len() > 0 {
        lemma_absent(fields.drop_last(), n);
        assert(fields[fields.len() - 1].0 != n);
        assert(fields.drop_last().push(fields.last()) =~= fields);
    }
}

/// Putting again what was put last replaces it.
proof fn lemma_put_again(fields: Seq<(u32, ValueModel)>, n: u32, v: ValueModel, w: ValueModel)
    ensures
        field_get(fields.push((n, v)), n) == Some(v),
        field_put(fields.push((n, v)), n, w) == fields.push((n, w)),
{
    assert(fields.push((n, v)).drop_last() =~= fields);
}

/// Where no other member of the oneof is set, clearing it changes nothing.
proof fn lemma_clear_nothing(m: MessageModel, oneof: Option<u16>, keep: u32)
    requires
        forall|i: int|
            0 <= i < m.fields.len() ==> !in_oneof(m.pool, m.index, oneof, (#[trigger] m.fields[i]).0),
    ensures
        clear_oneof(m, oneof, keep) == m,
{
    let md = m.pool.message_seq()[m.index.0 as int];
    if let Some(oi) = oneof {
        if oi < md.oneofs@.len() {
            lemma_clear_members_nothing(m, oi, keep, 0);
        }
    }
}

proof fn lemma_clear_members_nothing(m: MessageModel, oi: u16, keep: u32, i: nat)
    requires
        oi < m.pool.message_seq()[m.index.0 as int].oneofs@.len(),
        forall|i: int|
            0 <= i < m.fields.len() ==> !in_oneof(
                m.pool,
                m.index,
                Some(oi),
                (#[trigger] m.fields[i]).0,
            ),
    ensures
        clear_members(
            m.fields,
            m.pool.message_seq()[m.index.0 as int].fields@,
            m.pool.message_seq()[m.index.0 as int].oneofs@[oi as int].field_indices@,
            keep,
            i,
        ) == m.fields,
    decreases
        m.pool.message_seq()[m.index.0 as int].oneofs@[oi as int].field_indices@.len() - i,
{
    let md = m.pool.message_seq()[m.index.0 as int];
    let members = md.oneofs@[oi as int].field_indices@;
    if i < members.len() {
        let k = members[i as int];
        if k < md.fields@.len() && md.fields@[k as int].number != keep {
            let n = md.fields@[k as int].number;
            assert forall|j: int| 0 <= j < m.fields.len() implies (#[trigger] m.fields[j]).0
                != n by {
                assert(!in_oneof(m.pool, m.index, Some(oi), m.fields[j].0));
                assert(md.oneofs@[oi as int].field_indices@[i as int] < md.fields@.len());
            }
            lemma_absent(m.fields, n);
        }
        lemma_clear_members_nothing(m, oi, keep, i + 1);
    }
}

// ── Elements ────────────────────────────────────────────────────────────────

/// What stands behind the tag of an element.
spec fn body_bytes(n: u32, kind: SingularKind, delimited: bool, v: ValueModel) -> Seq<u8> {
    match (kind, v) {
        (SingularKind::Scalar(s), _) => scalar_bytes(s, v),
        (SingularKind::Enum(_), ValueModel::EnumNumber(x)) => int32_bytes(x),
        (SingularKind::Message(_), ValueModel::Message(x)) => if delimited {
            message_bytes(x) + tag_bytes(n, WireType::EndGroup)
        } else {
            delimited_bytes(message_bytes(x))
        },
        _ => Seq::empty(),
    }
}

proof fn lemma_tagged_body(
    n: u32,
    kind: SingularKind,
    delimited: bool,
    v: ValueModel,
    pool: DescriptorPool,
)
    requires
        singular_fits(kind, v, pool),
    ensures
        tagged_bytes(n, kind, delimited, v) == tag_bytes(n, element_wire(kind, delimited))
            + body_bytes(n, kind, delimited, v),
        !delimited ==> body_bytes(n, kind, delimited, v) == element_bytes(kind, v),
{
    let tag = tag_bytes(n, element_wire(kind, delimited));
    if let (SingularKind::Message(_), ValueModel::Message(x)) = (kind, v) {
        assert(tag + message_bytes(x) + tag_bytes(n, WireType::EndGroup) =~= tag + (message_bytes(x)
            + tag_bytes(n, WireType::EndGroup)));
    }
}

/// What follows the bytes of a message: the tag that closes the group `end`
/// and what is behind it, or nothing.
spec fn closing(end: Option<u32>, tail: Seq<u8>) -> Seq<u8> {
    match end {
        Some(n) => tag_bytes(n, WireType::EndGroup) + tail,
        None => tail,
    }
}

/// An element is read back from what stands behind its tag.
proof fn lemma_take_element(
    pool: DescriptorPool,
    n: u32,
    kind: SingularKind,
    enum_type: Option<EnumType>,
    delimited: bool,
    v: ValueModel,
    rest: Seq<u8>,
    depth: nat,
    b: Budget,
)
    requires
        1 <= n <= MAX_FIELD_NUMBER,
        singular_fits(kind, v, pool),
        readable_element(pool, kind, enum_type, v, depth),
        covers(b, value_cost(v)),
        body_bytes(n, kind, delimited, v).len() <= usize::MAX,
    ensures
        take_element(
            pool,
            kind,
            (Tag { field_number: n, wire_type: element_wire(kind, delimited) }),
            body_bytes(n, kind, delimited, v) + rest,
            depth,
            b,
        ) == Ok::<(ValueModel, Seq<u8>, Budget), DecodeError>(
            (read_value(v), rest, spent(b, value_cost(v))),
        ),
    decreases v, 1nat,
{
    let tag = Tag { field_number: n, wire_type: element_wire(kind, delimited) };
    let body = body_bytes(n, kind, delimited, v);
    match (kind, v) {
        (SingularKind::Scalar(t), _) => {
            lemma_take_scalar_bytes(t, v, rest);
            assert(spent(b, value_cost(v)) == b);
        },
        (SingularKind::Enum(_), ValueModel::EnumNumber(x)) => {
            lemma_take_int32_bytes(x, rest);
            assert(spent(b, value_cost(v)) == b);
        },
        (SingularKind::Message(i), ValueModel::Message(x)) => {
            let mb = message_bytes(x);
            let d = (depth - 1) as nat;
            assert(decreases_to!(v => v->Message_0));
            assert(value_cost(v) == message_cost(x));
            assert(read_value(v) == ValueModel::Message(canonical(x)));
            assert(canonical(x) == normal_message(read_message(x)));
            if delimited {
                lemma_message(x, Some(n), rest, d, b);
                assert(body + rest =~= mb + closing(Some(n), rest));
                assert(merge_message(empty_message(pool, i), body + rest, Some(n), d, b) == (
                    canonical(x),
                    Ok::<(Seq<u8>, Budget), DecodeError>((rest, spent(b, message_cost(x)))),
                ));
            } else {
                lemma_message(x, None, Seq::empty(), d, b);
                assert(mb + closing(None, Seq::empty()) =~= mb);
                lemma_take_delimited_bytes(mb, rest);
                assert(merge_message(empty_message(pool, i), mb, None, d, b) == (
                    canonical(x),
                    Ok::<(Seq<u8>, Budget), DecodeError>(
                        (Seq::<u8>::empty(), spent(b, message_cost(x))),
                    ),
                ));
            }
            assert(merge_body(empty_message(pool, i), tag, body + rest, d, b) == (
                canonical(x),
                Ok::<(Seq<u8>, Budget), DecodeError>((rest, spent(b, message_cost(x)))),
            ));
        },
        _ => {},
    }
}

/// A field with one element is read back.
proof fn lemma_singular(
    a: MessageModel,
    fd: FieldDescriptor,
    k: SingularKind,
    v: ValueModel,
    rest: Seq<u8>,
    end: Option<u32>,
    depth: nat,
    b: Budget,
)
    requires
        fd.kind == FieldKind::Singular(k),
        1 <= fd.number <= MAX_FIELD_NUMBER,
        field_of(a.pool, a.index, fd.number) == Some(fd),
        singular_fits(k, v, a.pool),
        readable_element(a.pool, k, fd.enum_type, v, depth),
        covers(b, value_cost(v)),
        tagged_bytes(fd.number, k, fd.delimited, v).len() <= usize::MAX,
        clear_oneof(a, fd.oneof_index, fd.number) == a,
        forall|i: int| 0 <= i < a.fields.len() ==> (#[trigger] a.fields[i]).0 < fd.number,
    ensures
        merge_fields(a, tagged_bytes(fd.number, k, fd.delimited, v) + rest, end, depth, b)
            == merge_fields(
            (MessageModel { fields: a.fields.push((fd.number, read_value(v))), ..a }),
            rest,
            end,
            depth,
            spent(b, value_cost(v)),
        ),
    decreases v, 2nat,
{
    let n = fd.number;
    let w = element_wire(k, fd.delimited);
    let body = body_bytes(n, k, fd.delimited, v);
    let tag = Tag { field_number: n, wire_type: w };
    let m1 = MessageModel { fields: a.fields.push((n, read_value(v))), ..a };
    let b1 = spent(b, value_cost(v));
    lemma_tagged_body(n, k, fd.delimited, v, a.pool);
    lemma_put_last(a.fields, n, read_value(v));
    if let (SingularKind::Enum(e), ValueModel::EnumNumber(x)) = (k, v) {
        lemma_take_int32_bytes(x, rest);
        assert(b1 == b);
        assert(read_value(v) == v);
    } else {
        lemma_take_element(a.pool, n, k, fd.enum_type, fd.delimited, v, rest, depth, b);
    }
    assert(merge_field(a, tag, body + rest, depth, b) == (
        m1,
        Ok::<(Seq<u8>, Budget), DecodeError>((rest, b1)),
    ));
    lemma_step(a, n, w, body, rest, end, depth, b, m1, b1);
}

// ── Lists ───────────────────────────────────────────────────────────────────

/// The message with the list `done` in field `n`; without the field where the
/// list is empty.
spec fn listing(a: MessageModel, n: u32, done: Seq<ValueModel>) -> MessageModel {
    if done.len() == 0 {
        a
    } else {
        MessageModel { fields: a.fields.push((n, ValueModel::List(done))), ..a }
    }
}

proof fn lemma_listing(a: MessageModel, n: u32, done: Seq<ValueModel>, more: Seq<ValueModel>)
    requires
        forall|i: int| 0 <= i < a.fields.len() ==> (#[trigger] a.fields[i]).0 < n,
        more.len() > 0,
    ensures
        list_at(listing(a, n, done).fields, n) == done,
        with_field(listing(a, n, done), n, ValueModel::List(more)) == listing(a, n, more),
        listing(a, n, done).pool == a.pool,
        listing(a, n, done).index == a.index,
{
    lemma_put_last(a.fields, n, ValueModel::List(more));
    if done.len() == 0 {
        assert(done =~= Seq::<ValueModel>::empty());
    } else {
        lemma_put_again(a.fields, n, ValueModel::List(done), ValueModel::List(more));
    }
}

/// One element behind a tag is added to the list.
proof fn lemma_repeated_one(
    a: MessageModel,
    fd: FieldDescriptor,
    k: SingularKind,
    done: Seq<ValueModel>,
    v: ValueModel,
    rest: Seq<u8>,
    end: Option<u32>,
    depth: nat,
    b: Budget,
)
    requires
        fd.kind == FieldKind::List(k),
        1 <= fd.number <= MAX_FIELD_NUMBER,
        field_of(a.pool, a.index, fd.number) == Some(fd),
        singular_fits(k, v, a.pool),
        readable_element(a.pool, k, fd.enum_type, v, depth),
        covers(b, plus(value_cost(v), Cost { slots: 0, memory: element_cost() })),
        tagged_bytes(fd.number, k, fd.delimited, v).len() <= usize::MAX,
        forall|i: int| 0 <= i < a.fields.len() ==> (#[trigger] a.fields[i]).0 < fd.number,
    ensures
        merge_fields(
            listing(a, fd.number, done),
            tagged_bytes(fd.number, k, fd.delimited, v) + rest,
            end,
            depth,
            b,
        ) == merge_fields(
            listing(a, fd.number, done.push(read_value(v))),
            rest,
            end,
            depth,
            spent(b, plus(value_cost(v), Cost { slots: 0, memory: element_cost() })),
        ),
    decreases v, 2nat,
{
    let n = fd.number;
    let w = element_wire(k, fd.delimited);
    let body = body_bytes(n, k, fd.delimited, v);
    let tag = Tag { field_number: n, wire_type: w };
    let m = listing(a, n, done);
    let x = read_value(v);
    let m1 = listing(a, n, done.push(x));
    let b1 = spent(b, plus(value_cost(v), Cost { slots: 0, memory: element_cost() }));
    lemma_tagged_body(n, k, fd.delimited, v, a.pool);
    lemma_listing(a, n, done, done.push(x));
    if let (SingularKind::Enum(e), ValueModel::EnumNumber(num)) = (k, v) {
        lemma_take_int32_bytes(num, rest);
        assert(x == v);
        assert(done + seq![x] =~= done.push(x));
        assert(value_cost(v) == (Cost { slots: 0, memory: 0 }));
    }
    lemma_take_element(a.pool, n, k, fd.enum_type, fd.delimited, v, rest, depth, b);
    assert(merge_list(m, n, k, fd.enum_type, tag, body + rest, depth, b) == (
        m1,
        Ok::<(Seq<u8>, Budget), DecodeError>((rest, b1)),
    ));
    assert(merge_field(m, tag, body + rest, depth, b) == (
        m1,
        Ok::<(Seq<u8>, Budget), DecodeError>((rest, b1)),
    ));
    lemma_step(m, n, w, body, rest, end, depth, b, m1, b1);
}

/// Elements behind tags are added to the list.
proof fn lemma_repeated(
    a: MessageModel,
    fd: FieldDescriptor,
    k: SingularKind,
    done: Seq<ValueModel>,
    l: Seq<ValueModel>,
    rest: Seq<u8>,
    end: Option<u32>,
    depth: nat,
    b: Budget,
)
    requires
        fd.kind == FieldKind::List(k),
        1 <= fd.number <= MAX_FIELD_NUMBER,
        field_of(a.pool, a.index, fd.number) == Some(fd),
        forall|i: int| 0 <= i < l.len() ==> singular_fits(k, #[trigger] l[i], a.pool),
        readable_items(a.pool, k, fd.enum_type, l, depth),
        covers(b, items_cost(l)),
        repeated_bytes(fd.number, k, fd.delimited, l).len() <= usize::MAX,
        forall|i: int| 0 <= i < a.fields.len() ==> (#[trigger] a.fields[i]).0 < fd.number,
    ensures
        merge_fields(
            listing(a, fd.number, done),
            repeated_bytes(fd.number, k, fd.delimited, l) + rest,
            end,
            depth,
            b,
        ) == merge_fields(
            listing(a, fd.number, done + read_items(l)),
            rest,
            end,
            depth,
            spent(b, items_cost(l)),
        ),
    decreases l, 3nat,
{
    let n = fd.number;
    if l.len() == 0 {
        assert(Seq::<u8>::empty() + rest =~= rest);
        assert(done + read_items(l) =~= done);
        assert(spent(b, items_cost(l)) == b);
    } else {
        let more = l.subrange(1, l.len() as int);
        let head = tagged_bytes(n, k, fd.delimited, l[0]);
        let tail = repeated_bytes(n, k, fd.delimited, more);
        let c0 = plus(value_cost(l[0]), Cost { slots: 0, memory: element_cost() });
        let x = read_value(l[0]);
        assert(repeated_bytes(n, k, fd.delimited, l) + rest =~= head + (tail + rest));
        assert(items_cost(l) == plus(c0, items_cost(more)));
        assert(readable_element(a.pool, k, fd.enum_type, l[0], depth));
        lemma_repeated_one(a, fd, k, done, l[0], tail + rest, end, depth, b);
        lemma_repeated(a, fd, k, done.push(x), more, rest, end, depth, spent(b, c0));
        assert(done.push(x) + read_items(more) =~= done + read_items(l));
        assert(spent(spent(b, c0), items_cost(more)) == spent(b, items_cost(l)));
    }
}

/// Packed elements are added to the list.
proof fn lemma_packed(
    pool: DescriptorPool,
    n: u32,
    k: SingularKind,
    done: Seq<ValueModel>,
    l: Seq<ValueModel>,
    b: Budget,
)
    requires
        packable(k),
        forall|i: int| 0 <= i < l.len() ==> singular_fits(k, #[trigger] l[i], pool),
        covers(b, items_cost(l)),
        packed_bytes(k, l).len() <= usize::MAX,
    ensures
        merge_packed(k, n, done, packed_bytes(k, l), b) == (
            done + read_items(l),
            Ok::<Budget, DecodeError>(spent(b, items_cost(l))),
        ),
    decreases l.len(),
{
    if l.len() == 0 {
        assert(done + read_items(l) =~= done);
        assert(spent(b, items_cost(l)) == b);
    } else {
        let more = l.subrange(1, l.len() as int);
        let v = l[0];
        let tail = packed_bytes(k, more);
        let c0 = plus(value_cost(v), Cost { slots: 0, memory: element_cost() });
        assert(items_cost(l) == plus(c0, items_cost(more)));
        assert(value_cost(v) == (Cost { slots: 0, memory: 0 }));
        assert(read_value(v) == v);
        assert(element_bytes(k, v) + tail == packed_bytes(k, l));
        match k {
            SingularKind::Scalar(t) => {
                lemma_take_scalar_bytes(t, v, tail);
                lemma_scalar_nonempty(t, v);
            },
            _ => {
                lemma_take_int32_bytes(v->EnumNumber_0, tail);
                lemma_varint_bytes_len(wrap64(v->EnumNumber_0 as int) as u64);
            },
        }
        lemma_packed(pool, n, k, done.push(v), more, spent(b, c0));
        assert(done.push(v) + read_items(more) =~= done + read_items(l));
    }
}

/// A scalar that fits its type is written as at least one byte.
proof fn lemma_scalar_nonempty(s: ScalarType, v: ValueModel)
    requires
        scalar_fits(s, v),
    ensures
        scalar_bytes(s, v).len() > 0,
{
    if scalar_bytes(s, v).len() == 0 {
        lemma_take_scalar_bytes(s, v, Seq::empty());
        assert(scalar_bytes(s, v) + Seq::<u8>::empty() =~= Seq::<u8>::empty());
        crate::scalar::lemma_take_scalar(s, Seq::empty());
    }
}

/// Packed numbers of a closed enum are collected.
proof fn lemma_packed_closed(
    a: MessageModel,
    n: u32,
    e: EnumIndex,
    enum_type: Option<EnumType>,
    known: Seq<ValueModel>,
    l: Seq<ValueModel>,
    depth: nat,
    b: Budget,
)
    requires
        enum_is_closed(a.pool, e, enum_type),
        forall|i: int|
            0 <= i < l.len() ==> singular_fits(SingularKind::Enum(e), #[trigger] l[i], a.pool),
        readable_items(a.pool, SingularKind::Enum(e), enum_type, l, depth),
        covers(b, items_cost(l)),
    ensures
        merge_packed_closed(a, n, e, known, packed_bytes(SingularKind::Enum(e), l), b) == (
            a,
            Ok::<(Seq<ValueModel>, Budget), DecodeError>(
                (known + read_items(l), spent(b, items_cost(l))),
            ),
        ),
    decreases l.len(),
{
    let k = SingularKind::Enum(e);
    if l.len() == 0 {
        assert(known + read_items(l) =~= known);
        assert(spent(b, items_cost(l)) == b);
    } else {
        let more = l.subrange(1, l.len() as int);
        let v = l[0];
        let x = v->EnumNumber_0;
        let tail = packed_bytes(k, more);
        let c0 = plus(value_cost(v), Cost { slots: 0, memory: element_cost() });
        assert(items_cost(l) == plus(c0, items_cost(more)));
        assert(value_cost(v) == (Cost { slots: 0, memory: 0 }));
        assert(read_value(v) == v);
        assert(readable_element(a.pool, k, enum_type, v, depth));
        assert(element_bytes(k, v) == int32_bytes(x));
        assert(int32_bytes(x) + tail == packed_bytes(k, l));
        lemma_take_int32_bytes(x, tail);
        lemma_varint_bytes_len(wrap64(x as int) as u64);
        lemma_packed_closed(
            a,
            n,
            e,
            enum_type,
            known.push(v),
            more,
            depth,
            spent(b, c0),
        );
        assert(known.push(v) + read_items(more) =~= known + read_items(l));
    }
}

/// A field with a list is read back.
proof fn lemma_list(
    a: MessageModel,
    fd: FieldDescriptor,
    k: SingularKind,
    l: Seq<ValueModel>,
    rest: Seq<u8>,
    end: Option<u32>,
    depth: nat,
    b: Budget,
)
    requires
        fd.kind == FieldKind::List(k),
        1 <= fd.number <= MAX_FIELD_NUMBER,
        field_of(a.pool, a.index, fd.number) == Some(fd),
        l.len() > 0,
        value_fits(fd.kind, ValueModel::List(l), a.pool),
        readable_items(a.pool, k, fd.enum_type, l, depth),
        covers(b, items_cost(l)),
        field_bytes(fd, ValueModel::List(l), a.pool).len() <= usize::MAX,
        forall|i: int| 0 <= i < a.fields.len() ==> (#[trigger] a.fields[i]).0 < fd.number,
    ensures
        merge_fields(a, field_bytes(fd, ValueModel::List(l), a.pool) + rest, end, depth, b)
            == merge_fields(
            (MessageModel {
                fields: a.fields.push((fd.number, ValueModel::List(read_items(l)))),
                ..a
            }),
            rest,
            end,
            depth,
            spent(b, items_cost(l)),
        ),
    decreases l, 4nat,
{
    let n = fd.number;
    let none = Seq::<ValueModel>::empty();
    let items = read_items(l);
    assert(items.len() > 0);
    assert(none + items =~= items);
    if fd.packed && packable(k) {
        let w = WireType::LengthDelimited;
        let tag = Tag { field_number: n, wire_type: w };
        let p = packed_bytes(k, l);
        let body = delimited_bytes(p);
        let m1 = listing(a, n, items);
        let b1 = spent(b, items_cost(l));
        lemma_take_delimited_bytes(p, rest);
        lemma_listing(a, n, none, items);
        lemma_packed(a.pool, n, k, none, l, b);
        if let SingularKind::Enum(e) = k {
            if enum_is_closed(a.pool, e, fd.enum_type) {
                lemma_packed_closed(a, n, e, fd.enum_type, none, l, depth, b);
            }
        }
        assert(merge_list(a, n, k, fd.enum_type, tag, body + rest, depth, b) == (
            m1,
            Ok::<(Seq<u8>, Budget), DecodeError>((rest, b1)),
        ));
        assert(merge_field(a, tag, body + rest, depth, b) == (
            m1,
            Ok::<(Seq<u8>, Budget), DecodeError>((rest, b1)),
        ));
        lemma_step(a, n, w, body, rest, end, depth, b, m1, b1);
    } else {
        lemma_repeated(a, fd, k, none, l, rest, end, depth, b);
    }
}

// ── Maps ────────────────────────────────────────────────────────────────────

/// The message with the entries `done` in field `n`, without the field where
/// there are none, and with the unknown fields `us`.
spec fn mapping(
    a: MessageModel,
    n: u32,
    done: Seq<(KeyModel, ValueModel)>,
    us: Seq<UnknownEntry>,
) -> MessageModel {
    if done.len() == 0 {
        MessageModel { unknown: us, ..a }
    } else {
        MessageModel {
            fields: a.fields.push((n, ValueModel::Mapping(done))),
            unknown: us,
            ..a
        }
    }
}

proof fn lemma_mapping(
    a: MessageModel,
    n: u32,
    done: Seq<(KeyModel, ValueModel)>,
    us: Seq<UnknownEntry>,
    k: KeyModel,
    v: ValueModel,
)
    requires
        forall|i: int| 0 <= i < a.fields.len() ==> (#[trigger] a.fields[i]).0 < n,
    ensures
        add_entry(mapping(a, n, done, us), n, k, v) == mapping(a, n, done.push((k, v)), us),
        mapping(a, n, done, us).pool == a.pool,
        mapping(a, n, done, us).index == a.index,
{
    let more = done.push((k, v));
    lemma_put_last(a.fields, n, ValueModel::Mapping(more));
    if done.len() == 0 {
        assert(done =~= Seq::<(KeyModel, ValueModel)>::empty());
    } else {
        lemma_put_again(a.fields, n, ValueModel::Mapping(done), ValueModel::Mapping(more));
    }
}

/// The two fields of a map entry are read back.
proof fn lemma_take_entry(
    pool: DescriptorPool,
    key: ScalarType,
    kind: SingularKind,
    enum_type: Option<EnumType>,
    e: (KeyModel, ValueModel),
    depth: nat,
    b: Budget,
)
    requires
        key_fits(key, e.0),
        singular_fits(kind, e.1, pool),
        readable_element(pool, kind, enum_type, e.1, depth),
        covers(b, value_cost(e.1)),
        entry_bytes(key, kind, e).len() <= usize::MAX,
    ensures
        take_entry(pool, key, kind, entry_bytes(key, kind, e), depth, b, None, None) == Ok::<
            (Option<KeyModel>, Option<ValueModel>, Budget),
            DecodeError,
        >((Some(e.0), Some(read_value(e.1)), spent(b, value_cost(e.1)))),
        kind matches SingularKind::Enum(en) ==> enum_is_closed(pool, en, enum_type)
            ==> take_closed_entry(
            pool,
            key,
            en,
            entry_bytes(key, kind, e),
            depth,
            None,
            ClosedValue::Absent,
        ) == Ok::<(Option<KeyModel>, ClosedValue), DecodeError>(
            (Some(e.0), ClosedValue::Known(e.1->EnumNumber_0)),
        ),
    decreases e, 2nat,
{
    let none = Seq::<u8>::empty();
    let s = entry_bytes(key, kind, e);
    let t1 = tag_bytes(1, key_wire(key));
    let kb = key_bytes(key, e.0);
    let t2 = tag_bytes(2, element_wire(kind, false));
    let vb = element_bytes(kind, e.1);
    let tag1 = Tag { field_number: 1, wire_type: key_wire(key) };
    let tag2 = Tag { field_number: 2, wire_type: element_wire(kind, false) };
    let s1 = t2 + vb;
    assert(s =~= t1 + (kb + s1));
    lemma_take_tag_bytes(1, key_wire(key), kb + s1);
    lemma_take_tag(s);
    lemma_take_key_bytes(key, e.0, tag1, s1);
    assert(decreases_to!(e => e.1));
    lemma_tagged_body(2, kind, false, e.1, pool);
    lemma_take_tag_bytes(2, element_wire(kind, false), vb);
    lemma_take_tag(s1);
    assert(vb + none =~= vb);
    lemma_take_element(pool, 2, kind, enum_type, false, e.1, none, depth, b);
    let b1 = spent(b, value_cost(e.1));
    assert(take_entry(
        pool,
        key,
        kind,
        none,
        depth,
        b1,
        Some(e.0),
        Some(read_value(e.1)),
    ) == Ok::<(Option<KeyModel>, Option<ValueModel>, Budget), DecodeError>(
        (Some(e.0), Some(read_value(e.1)), b1),
    ));
    assert(take_entry(pool, key, kind, s1, depth, b, Some(e.0), None) == Ok::<
        (Option<KeyModel>, Option<ValueModel>, Budget),
        DecodeError,
    >((Some(e.0), Some(read_value(e.1)), b1)));
    if let SingularKind::Enum(en) = kind {
        if enum_is_closed(pool, en, enum_type) {
            let x = e.1->EnumNumber_0;
            lemma_take_int32_bytes(x, none);
            assert(take_closed_entry(
                pool,
                key,
                en,
                none,
                depth,
                Some(e.0),
                ClosedValue::Known(x),
            ) == Ok::<(Option<KeyModel>, ClosedValue), DecodeError>(
                (Some(e.0), ClosedValue::Known(x)),
            ));
            assert(take_closed_entry(
                pool,
                key,
                en,
                s1,
                depth,
                Some(e.0),
                ClosedValue::Absent,
            ) == Ok::<(Option<KeyModel>, ClosedValue), DecodeError>(
                (Some(e.0), ClosedValue::Known(x)),
            ));
        }
    }
}

/// An entry that strays is read as one.
proof fn lemma_take_stray(
    pool: DescriptorPool,
    key: ScalarType,
    en: EnumIndex,
    enum_type: Option<EnumType>,
    e: (KeyModel, ValueModel),
    depth: nat,
)
    requires
        key_fits(key, e.0),
        strays(pool, SingularKind::Enum(en), enum_type, e.1),
        entry_bytes(key, SingularKind::Enum(en), e).len() <= usize::MAX,
    ensures
        enum_is_closed(pool, en, enum_type),
        take_closed_entry(
            pool,
            key,
            en,
            entry_bytes(key, SingularKind::Enum(en), e),
            depth,
            None,
            ClosedValue::Absent,
        ) == Ok::<(Option<KeyModel>, ClosedValue), DecodeError>(
            (Some(e.0), ClosedValue::Unknown),
        ),
{
    let kind = SingularKind::Enum(en);
    let none = Seq::<u8>::empty();
    let s = entry_bytes(key, kind, e);
    let t1 = tag_bytes(1, key_wire(key));
    let kb = key_bytes(key, e.0);
    let t2 = tag_bytes(2, element_wire(kind, false));
    let vb = element_bytes(kind, e.1);
    let tag1 = Tag { field_number: 1, wire_type: key_wire(key) };
    let s1 = t2 + vb;
    let x = e.1->EnumNumber_0;
    assert(s =~= t1 + (kb + s1));
    lemma_take_tag_bytes(1, key_wire(key), kb + s1);
    lemma_take_tag(s);
    lemma_take_key_bytes(key, e.0, tag1, s1);
    lemma_tagged_body(2, kind, false, e.1, pool);
    lemma_take_tag_bytes(2, element_wire(kind, false), vb);
    lemma_take_tag(s1);
    assert(vb + none =~= vb);
    lemma_take_int32_bytes(x, none);
    assert(take_closed_entry(
        pool,
        key,
        en,
        none,
        depth,
        Some(e.0),
        ClosedValue::Unknown,
    ) == Ok::<(Option<KeyModel>, ClosedValue), DecodeError>((Some(e.0), ClosedValue::Unknown)));
    assert(take_closed_entry(
        pool,
        key,
        en,
        s1,
        depth,
        Some(e.0),
        ClosedValue::Absent,
    ) == Ok::<(Option<KeyModel>, ClosedValue), DecodeError>((Some(e.0), ClosedValue::Unknown)));
}

/// The entry by itself.
spec fn alone(e: (KeyModel, ValueModel)) -> Seq<(KeyModel, ValueModel)> {
    seq![e]
}

/// One entry is added to the map, or kept as an unknown field.
proof fn lemma_entry_one(
    a: MessageModel,
    fd: FieldDescriptor,
    key: ScalarType,
    kind: SingularKind,
    done: Seq<(KeyModel, ValueModel)>,
    us: Seq<UnknownEntry>,
    e: (KeyModel, ValueModel),
    rest: Seq<u8>,
    end: Option<u32>,
    depth: nat,
    b: Budget,
)
    requires
        fd.kind == (FieldKind::Mapping { key, value: kind }),
        1 <= fd.number <= MAX_FIELD_NUMBER,
        field_of(a.pool, a.index, fd.number) == Some(fd),
        key_fits(key, e.0),
        singular_fits(kind, e.1, a.pool),
        readable_held(a.pool, kind, fd.enum_type, e.1, depth),
        covers(b, entries_cost(a.pool, kind, fd.enum_type, alone(e))),
        entry_bytes(key, kind, e).len() <= usize::MAX,
        forall|i: int| 0 <= i < a.fields.len() ==> (#[trigger] a.fields[i]).0 < fd.number,
    ensures
        merge_fields(
            mapping(a, fd.number, done, us),
            tag_bytes(fd.number, WireType::LengthDelimited) + delimited_bytes(
                entry_bytes(key, kind, e),
            ) + rest,
            end,
            depth,
            b,
        ) == merge_fields(
            mapping(
                a,
                fd.number,
                done + read_entries(a.pool, kind, fd.enum_type, alone(e)),
                us + stray_entries(a.pool, fd.number, key, kind, fd.enum_type, alone(e)),
            ),
            rest,
            end,
            depth,
            spent(b, entries_cost(a.pool, kind, fd.enum_type, alone(e))),
        ),
    decreases e, 4nat,
{
    let n = fd.number;
    let w = WireType::LengthDelimited;
    let tag = Tag { field_number: n, wire_type: w };
    let s = entry_bytes(key, kind, e);
    let body = delimited_bytes(s);
    let m = mapping(a, n, done, us);
    let l = alone(e);
    let t = l.subrange(1, 1);
    let c = entries_cost(a.pool, kind, fd.enum_type, l);
    let b1 = spent(b, c);
    let m1 = mapping(
        a,
        n,
        done + read_entries(a.pool, kind, fd.enum_type, l),
        us + stray_entries(a.pool, n, key, kind, fd.enum_type, l),
    );
    assert(entries_cost(a.pool, kind, fd.enum_type, t) == (Cost { slots: 0, memory: 0 }));
    assert(read_entries(a.pool, kind, fd.enum_type, t) =~= Seq::empty());
    assert(stray_entries(a.pool, n, key, kind, fd.enum_type, t) =~= Seq::empty());
    if strays(a.pool, kind, fd.enum_type, e.1) {
        let u = UnknownEntry { number: n, data: UnknownPayload::LengthDelimited(s) };
        assert(c == (Cost { slots: 1, memory: 0 }));
        lemma_merge_stray(m, n, key, kind->Enum_0, fd.enum_type, e, rest, depth, b);
        assert(read_entries(a.pool, kind, fd.enum_type, l) =~= Seq::empty());
        assert(done + read_entries(a.pool, kind, fd.enum_type, l) =~= done);
        assert(stray_entries(a.pool, n, key, kind, fd.enum_type, l) =~= seq![u]);
        assert(us + stray_entries(a.pool, n, key, kind, fd.enum_type, l) =~= us.push(u));
        assert(with_unknown(m, u) == m1);
    } else {
        let x = (e.0, read_value(e.1));
        assert(read_entries(a.pool, kind, fd.enum_type, l) =~= seq![x]);
        assert(done + read_entries(a.pool, kind, fd.enum_type, l) =~= done.push(x));
        assert(stray_entries(a.pool, n, key, kind, fd.enum_type, l) =~= Seq::empty());
        assert(us + stray_entries(a.pool, n, key, kind, fd.enum_type, l) =~= us);
        assert(c == plus(value_cost(e.1), Cost { slots: 0, memory: entry_cost() }));
        lemma_merge_entry(a, fd, key, kind, done, us, e, rest, depth, b);
    }
    lemma_mapping(a, n, done, us, e.0, e.1);
    lemma_field_map(m, fd, key, kind, body + rest, depth, b);
    lemma_step(m, n, w, body, rest, end, depth, b, m1, b1);
}

/// A map field is merged as a map.
proof fn lemma_field_map(
    m: MessageModel,
    fd: FieldDescriptor,
    key: ScalarType,
    kind: SingularKind,
    s: Seq<u8>,
    depth: nat,
    b: Budget,
)
    requires
        fd.kind == (FieldKind::Mapping { key, value: kind }),
        field_of(m.pool, m.index, fd.number) == Some(fd),
    ensures
        merge_field(
            m,
            (Tag { field_number: fd.number, wire_type: WireType::LengthDelimited }),
            s,
            depth,
            b,
        ) == merge_map(m, fd.number, key, kind, fd.enum_type, s, depth, b),
{
}

/// Merging one entry that strays keeps it as an unknown field.
proof fn lemma_merge_stray(
    m: MessageModel,
    n: u32,
    key: ScalarType,
    en: EnumIndex,
    enum_type: Option<EnumType>,
    e: (KeyModel, ValueModel),
    rest: Seq<u8>,
    depth: nat,
    b: Budget,
)
    requires
        key_fits(key, e.0),
        strays(m.pool, SingularKind::Enum(en), enum_type, e.1),
        entry_bytes(key, SingularKind::Enum(en), e).len() <= usize::MAX,
        b.unknown > 0,
    ensures
        merge_map(
            m,
            n,
            key,
            SingularKind::Enum(en),
            enum_type,
            delimited_bytes(entry_bytes(key, SingularKind::Enum(en), e)) + rest,
            depth,
            b,
        ) == (
            with_unknown(
                m,
                UnknownEntry {
                    number: n,
                    data: UnknownPayload::LengthDelimited(
                        entry_bytes(key, SingularKind::Enum(en), e),
                    ),
                },
            ),
            Ok::<(Seq<u8>, Budget), DecodeError>((rest, spent(b, Cost { slots: 1, memory: 0 }))),
        ),
{
    lemma_take_delimited_bytes(entry_bytes(key, SingularKind::Enum(en), e), rest);
    lemma_take_stray(m.pool, key, en, enum_type, e, depth);
}

/// Merging one entry that does not stray adds it to the map.
proof fn lemma_merge_entry(
    a: MessageModel,
    fd: FieldDescriptor,
    key: ScalarType,
    kind: SingularKind,
    done: Seq<(KeyModel, ValueModel)>,
    us: Seq<UnknownEntry>,
    e: (KeyModel, ValueModel),
    rest: Seq<u8>,
    depth: nat,
    b: Budget,
)
    requires
        key_fits(key, e.0),
        singular_fits(kind, e.1, a.pool),
        readable_element(a.pool, kind, fd.enum_type, e.1, depth),
        covers(b, plus(value_cost(e.1), Cost { slots: 0, memory: entry_cost() })),
        entry_bytes(key, kind, e).len() <= usize::MAX,
        forall|i: int| 0 <= i < a.fields.len() ==> (#[trigger] a.fields[i]).0 < fd.number,
    ensures
        merge_map(
            mapping(a, fd.number, done, us),
            fd.number,
            key,
            kind,
            fd.enum_type,
            delimited_bytes(entry_bytes(key, kind, e)) + rest,
            depth,
            b,
        ) == (
            mapping(a, fd.number, done.push((e.0, read_value(e.1))), us),
            Ok::<(Seq<u8>, Budget), DecodeError>(
                (
                    rest,
                    spent(b, plus(value_cost(e.1), Cost { slots: 0, memory: entry_cost() })),
                ),
            ),
        ),
    decreases e, 3nat,
{
    let n = fd.number;
    let p = entry_bytes(key, kind, e);
    let s = delimited_bytes(p) + rest;
    let m = mapping(a, n, done, us);
    let x = read_value(e.1);
    let b1 = spent(b, value_cost(e.1));
    let b2 = spent(b, plus(value_cost(e.1), Cost { slots: 0, memory: entry_cost() }));
    lemma_take_delimited_bytes(p, rest);
    lemma_mapping(a, n, done, us, e.0, x);
    lemma_take_entry(a.pool, key, kind, fd.enum_type, e, depth, b);
    if kind is Enum && enum_is_closed(a.pool, kind->Enum_0, fd.enum_type) {
        assert(x == e.1);
        assert(b1 == b);
        lemma_merge_map_closed(
            m,
            n,
            key,
            kind->Enum_0,
            fd.enum_type,
            s,
            depth,
            b,
            p,
            rest,
            e.0,
            e.1->EnumNumber_0,
            b2,
        );
    } else {
        lemma_merge_map_open(
            m,
            n,
            key,
            kind,
            fd.enum_type,
            s,
            depth,
            b,
            p,
            rest,
            e.0,
            x,
            b1,
            b2,
        );
    }
}

proof fn lemma_merge_map_open(
    m: MessageModel,
    n: u32,
    key: ScalarType,
    kind: SingularKind,
    enum_type: Option<EnumType>,
    s: Seq<u8>,
    depth: nat,
    b: Budget,
    p: Seq<u8>,
    rest: Seq<u8>,
    k: KeyModel,
    v: ValueModel,
    b1: Budget,
    b2: Budget,
)
    requires
        !(kind is Enum && enum_is_closed(m.pool, kind->Enum_0, enum_type)),
        take_delimited(s) == Ok::<(Seq<u8>, Seq<u8>), DecodeError>((p, rest)),
        take_entry(m.pool, key, kind, p, depth, b, None, None) == Ok::<
            (Option<KeyModel>, Option<ValueModel>, Budget),
            DecodeError,
        >((Some(k), Some(v), b1)),
        charge(b1, entry_cost()) == Ok::<Budget, DecodeError>(b2),
    ensures
        merge_map(m, n, key, kind, enum_type, s, depth, b) == (
            add_entry(m, n, k, v),
            Ok::<(Seq<u8>, Budget), DecodeError>((rest, b2)),
        ),
{
}

proof fn lemma_merge_map_closed(
    m: MessageModel,
    n: u32,
    key: ScalarType,
    e: EnumIndex,
    enum_type: Option<EnumType>,
    s: Seq<u8>,
    depth: nat,
    b: Budget,
    p: Seq<u8>,
    rest: Seq<u8>,
    k: KeyModel,
    x: i32,
    b2: Budget,
)
    requires
        enum_is_closed(m.pool, e, enum_type),
        take_delimited(s) == Ok::<(Seq<u8>, Seq<u8>), DecodeError>((p, rest)),
        take_closed_entry(m.pool, key, e, p, depth, None, ClosedValue::Absent) == Ok::<
            (Option<KeyModel>, ClosedValue),
            DecodeError,
        >((Some(k), ClosedValue::Known(x))),
        charge(b, entry_cost()) == Ok::<Budget, DecodeError>(b2),
    ensures
        merge_map(m, n, key, SingularKind::Enum(e), enum_type, s, depth, b) == (
            add_entry(m, n, k, ValueModel::EnumNumber(x)),
            Ok::<(Seq<u8>, Budget), DecodeError>((rest, b2)),
        ),
{
}

/// Entries are added to the map, or kept as unknown fields.
proof fn lemma_entries(
    a: MessageModel,
    fd: FieldDescriptor,
    key: ScalarType,
    kind: SingularKind,
    done: Seq<(KeyModel, ValueModel)>,
    us: Seq<UnknownEntry>,
    e: Seq<(KeyModel, ValueModel)>,
    rest: Seq<u8>,
    end: Option<u32>,
    depth: nat,
    b: Budget,
)
    requires
        fd.kind == (FieldKind::Mapping { key, value: kind }),
        1 <= fd.number <= MAX_FIELD_NUMBER,
        field_of(a.pool, a.index, fd.number) == Some(fd),
        forall|i: int|
            0 <= i < e.len() ==> key_fits(key, (#[trigger] e[i]).0) && singular_fits(
                kind,
                e[i].1,
                a.pool,
            ),
        readable_entries(a.pool, kind, fd.enum_type, e, depth),
        covers(b, entries_cost(a.pool, kind, fd.enum_type, e)),
        entries_bytes(fd.number, key, kind, e).len() <= usize::MAX,
        forall|i: int| 0 <= i < a.fields.len() ==> (#[trigger] a.fields[i]).0 < fd.number,
    ensures
        merge_fields(
            mapping(a, fd.number, done, us),
            entries_bytes(fd.number, key, kind, e) + rest,
            end,
            depth,
            b,
        ) == merge_fields(
            mapping(
                a,
                fd.number,
                done + read_entries(a.pool, kind, fd.enum_type, e),
                us + stray_entries(a.pool, fd.number, key, kind, fd.enum_type, e),
            ),
            rest,
            end,
            depth,
            spent(b, entries_cost(a.pool, kind, fd.enum_type, e)),
        ),
    decreases e, 5nat,
{
    let n = fd.number;
    let t = fd.enum_type;
    if e.len() == 0 {
        assert(Seq::<u8>::empty() + rest =~= rest);
        assert(done + read_entries(a.pool, kind, t, e) =~= done);
        assert(us + stray_entries(a.pool, n, key, kind, t, e) =~= us);
        assert(spent(b, entries_cost(a.pool, kind, t, e)) == b);
    } else {
        let more = e.subrange(1, e.len() as int);
        let tag = tag_bytes(n, WireType::LengthDelimited);
        let body = delimited_bytes(entry_bytes(key, kind, e[0]));
        let tail = entries_bytes(n, key, kind, more);
        let c0 = entries_cost(a.pool, kind, t, alone(e[0]));
        let done1 = done + read_entries(a.pool, kind, t, alone(e[0]));
        let us1 = us + stray_entries(a.pool, n, key, kind, t, alone(e[0]));
        lemma_first_entry(a.pool, n, key, kind, t, e);
        assert(entries_bytes(n, key, kind, e) + rest =~= tag + body + (tail + rest));
        assert(readable_held(a.pool, kind, t, e[0].1, depth));
        assert(decreases_to!(e => e[0]));
        assert(decreases_to!(e => more));
        lemma_entry_one(a, fd, key, kind, done, us, e[0], tail + rest, end, depth, b);
        lemma_entries(a, fd, key, kind, done1, us1, more, rest, end, depth, spent(b, c0));
        assert(done1 + read_entries(a.pool, kind, t, more) =~= done + read_entries(
            a.pool,
            kind,
            t,
            e,
        ));
        assert(us1 + stray_entries(a.pool, n, key, kind, t, more) =~= us + stray_entries(
            a.pool,
            n,
            key,
            kind,
            t,
            e,
        ));
        assert(spent(spent(b, c0), entries_cost(a.pool, kind, t, more)) == spent(
            b,
            entries_cost(a.pool, kind, t, e),
        ));
    }
}

/// Entries are read back as the first of them, and then the others.
proof fn lemma_first_entry(
    pool: DescriptorPool,
    n: u32,
    key: ScalarType,
    kind: SingularKind,
    enum_type: Option<EnumType>,
    e: Seq<(KeyModel, ValueModel)>,
)
    requires
        e.len() > 0,
    ensures
        ({
            let l = alone(e[0]);
            let more = e.subrange(1, e.len() as int);
            &&& read_entries(pool, kind, enum_type, e) == read_entries(pool, kind, enum_type, l)
                + read_entries(pool, kind, enum_type, more)
            &&& stray_entries(pool, n, key, kind, enum_type, e) == stray_entries(
                pool,
                n,
                key,
                kind,
                enum_type,
                l,
            ) + stray_entries(pool, n, key, kind, enum_type, more)
            &&& entries_cost(pool, kind, enum_type, e) == plus(
                entries_cost(pool, kind, enum_type, l),
                entries_cost(pool, kind, enum_type, more),
            )
        }),
{
    let l = alone(e[0]);
    let more = e.subrange(1, e.len() as int);
    let t = l.subrange(1, 1);
    assert(entries_cost(pool, kind, enum_type, t) == (Cost { slots: 0, memory: 0 }));
    assert(read_entries(pool, kind, enum_type, t) =~= Seq::empty());
    assert(stray_entries(pool, n, key, kind, enum_type, t) =~= Seq::empty());
    assert(read_entries(pool, kind, enum_type, e) =~= read_entries(pool, kind, enum_type, l)
        + read_entries(pool, kind, enum_type, more));
    assert(stray_entries(pool, n, key, kind, enum_type, e) =~= stray_entries(
        pool,
        n,
        key,
        kind,
        enum_type,
        l,
    ) + stray_entries(pool, n, key, kind, enum_type, more));
}

// ── Fields, unknown fields, messages ────────────────────────────────────────

/// The message with what a field that is written is read back as.
spec fn storing(a: MessageModel, fd: FieldDescriptor, v: ValueModel) -> MessageModel {
    let r = read_stored(a.pool, fd.kind, fd.enum_type, v);
    MessageModel {
        fields: if is_bare(r) {
            a.fields
        } else {
            a.fields.push((fd.number, r))
        },
        unknown: a.unknown + stray_value(a.pool, fd, v),
        ..a
    }
}

/// A field that is written is read back.
proof fn lemma_stored(
    a: MessageModel,
    fd: FieldDescriptor,
    v: ValueModel,
    rest: Seq<u8>,
    end: Option<u32>,
    depth: nat,
    b: Budget,
)
    requires
        1 <= fd.number <= MAX_FIELD_NUMBER,
        field_of(a.pool, a.index, fd.number) == Some(fd),
        shown(fd, v, a.pool),
        readable_value(a.pool, fd, v, depth),
        covers(b, stored_cost(a.pool, fd.kind, fd.enum_type, v)),
        field_bytes(fd, v, a.pool).len() <= usize::MAX,
        clear_oneof(a, fd.oneof_index, fd.number) == a,
        forall|i: int| 0 <= i < a.fields.len() ==> (#[trigger] a.fields[i]).0 < fd.number,
    ensures
        merge_fields(a, field_bytes(fd, v, a.pool) + rest, end, depth, b) == merge_fields(
            storing(a, fd, v),
            rest,
            end,
            depth,
            spent(b, stored_cost(a.pool, fd.kind, fd.enum_type, v)),
        ),
    decreases v, 6nat,
{
    assert(a.unknown + Seq::<UnknownEntry>::empty() =~= a.unknown);
    match (fd.kind, v) {
        (FieldKind::Singular(k), _) => {
            lemma_singular(a, fd, k, v, rest, end, depth, b);
        },
        (FieldKind::List(k), ValueModel::List(l)) => {
            assert(decreases_to!(v => v->List_0));
            lemma_list(a, fd, k, l, rest, end, depth, b);
        },
        (FieldKind::Mapping { key, value }, ValueModel::Mapping(e)) => {
            assert(decreases_to!(v => v->Mapping_0));
            let none = Seq::<(KeyModel, ValueModel)>::empty();
            let r = read_entries(a.pool, value, fd.enum_type, e);
            lemma_entries(a, fd, key, value, none, a.unknown, e, rest, end, depth, b);
            assert(none + r =~= r);
            assert(mapping(a, fd.number, none, a.unknown) == a);
            assert(mapping(a, fd.number, r, a.unknown + stray_value(a.pool, fd, v)) == storing(
                a,
                fd,
                v,
            ));
        },
        _ => {},
    }
}

/// One of the fields has the number and is written.
spec fn shows_number(
    pool: DescriptorPool,
    index: MessageIndex,
    fs: Seq<(u32, ValueModel)>,
    n: u32,
) -> bool {
    exists|j: int|
        0 <= j < fs.len() && (#[trigger] fs[j]).0 == n && shown_in(pool, index, fs[j])
}

/// Fields that are read back are fields that are written.
proof fn lemma_read_fields(
    pool: DescriptorPool,
    index: MessageIndex,
    fs: Seq<(u32, ValueModel)>,
    k: int,
)
    requires
        0 <= k < read_fields(pool, index, fs).len(),
    ensures
        shows_number(pool, index, fs, read_fields(pool, index, fs)[k].0),
    decreases fs.len(),
{
    let prev = fs.subrange(0, fs.len() - 1);
    let r = read_fields(pool, index, fs);
    if k < read_fields(pool, index, prev).len() {
        assert(r[k] == read_fields(pool, index, prev)[k]);
        lemma_read_fields(pool, index, prev, k);
        let n = read_fields(pool, index, prev)[k].0;
        let j = choose|j: int|
            0 <= j < prev.len() && (#[trigger] prev[j]).0 == n && shown_in(pool, index, prev[j]);
        assert(fs[j] == prev[j]);
    } else {
        assert(fs[fs.len() - 1].0 == r[k].0);
    }
}

/// The message that has been read back of the first `i` fields of `m`.
spec fn halfway(m: MessageModel, i: int) -> MessageModel {
    MessageModel {
        pool: m.pool,
        index: m.index,
        fields: read_fields(m.pool, m.index, m.fields.subrange(0, i)),
        unknown: stray_fields(m.pool, m.index, m.fields.subrange(0, i)),
    }
}

/// The fields from the `i`-th on are read back.
proof fn lemma_fields(
    m: MessageModel,
    i: int,
    fs: Seq<(u32, ValueModel)>,
    rest: Seq<u8>,
    end: Option<u32>,
    depth: nat,
    b: Budget,
)
    requires
        0 <= i <= m.fields.len(),
        fs == m.fields.subrange(i, m.fields.len() as int),
        pool_linked(m.pool),
        m.index.0 < m.pool.message_seq().len(),
        fields_sorted(m.fields),
        oneofs_exclusive(m),
        readable_fields(m.pool, m.index, fs, depth),
        covers(b, fields_cost(m.pool, m.index, fs)),
        set_bytes(m.pool, m.index, fs).len() <= usize::MAX,
    ensures
        merge_fields(
            halfway(m, i),
            set_bytes(m.pool, m.index, fs) + rest,
            end,
            depth,
            b,
        ) == merge_fields(
            halfway(m, m.fields.len() as int),
            rest,
            end,
            depth,
            spent(b, fields_cost(m.pool, m.index, fs)),
        ),
    decreases fs, 6nat,
{
    if fs.len() == 0 {
        assert(Seq::<u8>::empty() + rest =~= rest);
        assert(spent(b, fields_cost(m.pool, m.index, fs)) == b);
    } else {
        let f = m.fields[i];
        let more = fs.subrange(1, fs.len() as int);
        let a = halfway(m, i);
        let tail = set_bytes(m.pool, m.index, more);
        assert(fs[0] == f);
        assert(more =~= m.fields.subrange(i + 1, m.fields.len() as int));
        assert(m.fields.subrange(0, i + 1).subrange(0, i) =~= m.fields.subrange(0, i));
        assert(m.fields.subrange(0, i + 1)[i] == f);
        lemma_field_of(m.pool, m.index, f.0);
        if shown_in(m.pool, m.index, f) {
            let fd = field_of(m.pool, m.index, f.0)->Some_0;
            let head = field_bytes(fd, f.1, m.pool);
            let c0 = stored_cost(m.pool, fd.kind, fd.enum_type, f.1);
            assert(stored_bytes(fd, f.1, m.pool) == head);
            assert(set_bytes(m.pool, m.index, fs) + rest =~= head + (tail + rest));
            assert forall|k: int| 0 <= k < a.fields.len() implies (#[trigger] a.fields[k]).0 < f.0
                && !in_oneof(m.pool, m.index, fd.oneof_index, a.fields[k].0) by {
                lemma_read_fields(m.pool, m.index, m.fields.subrange(0, i), k);
                let j = choose|j: int|
                    0 <= j < m.fields.subrange(0, i).len() && (
                    #[trigger] m.fields.subrange(0, i)[j]).0 == a.fields[k].0 && shown_in(
                        m.pool,
                        m.index,
                        m.fields.subrange(0, i)[j],
                    );
                assert(m.fields[j] == m.fields.subrange(0, i)[j]);
                assert(m.fields[j].0 < m.fields[i].0);
            }
            lemma_clear_nothing(a, fd.oneof_index, fd.number);
            assert(decreases_to!(fs => fs[0]));
            assert(decreases_to!(fs[0] => fs[0].1));
            lemma_stored(a, fd, f.1, tail + rest, end, depth, b);
            assert(halfway(m, i + 1) == storing(a, fd, f.1));
            lemma_fields(m, i + 1, more, rest, end, depth, spent(b, c0));
        } else {
            lemma_not_shown(m.pool, m.index, f);
            assert(set_bytes(m.pool, m.index, fs) + rest =~= tail + rest);
            assert(halfway(m, i + 1) == a);
            lemma_fields(m, i + 1, more, rest, end, depth, b);
        }
    }
}

/// A field that is not shown has no bytes.
proof fn lemma_not_shown(pool: DescriptorPool, index: MessageIndex, f: (u32, ValueModel))
    requires
        !shown_in(pool, index, f),
    ensures
        field_of(pool, index, f.0) matches Some(fd) ==> stored_bytes(fd, f.1, pool) == Seq::<
            u8,
        >::empty(),
{
    if let Some(fd) = field_of(pool, index, f.0) {
        assert(field_bytes(fd, f.1, pool) == Seq::<u8>::empty() || skips(fd, f.1));
    }
}

/// The message with more unknown fields.
spec fn carrying(a: MessageModel, us: Seq<UnknownEntry>) -> MessageModel {
    MessageModel { unknown: us, ..a }
}

/// An unknown field that stays one is kept.
proof fn lemma_unknown_one(
    a: MessageModel,
    done: Seq<UnknownEntry>,
    e: UnknownEntry,
    rest: Seq<u8>,
    end: Option<u32>,
    depth: nat,
    b: Budget,
)
    requires
        entry_sound(e),
        entry_depth(e) <= depth,
        entry_slots(e) <= b.unknown,
        stays_unknown(a, e, depth),
    ensures
        merge_fields(
            carrying(a, done),
            tag_bytes(e.number, payload_wire(e.data)) + payload_bytes(e) + rest,
            end,
            depth,
            b,
        ) == merge_fields(
            carrying(a, done.push(e)),
            rest,
            end,
            depth,
            spent(b, Cost { slots: entry_slots(e), memory: 0 }),
        ),
{
    let m = carrying(a, done);
    let m1 = carrying(a, done.push(e));
    let w = payload_wire(e.data);
    let n = e.number;
    let tag = Tag { field_number: n, wire_type: w };
    let body = payload_bytes(e);
    let b1 = spent(b, Cost { slots: entry_slots(e), memory: 0 });
    lemma_take_payload_bytes(e, rest, depth, Some(b.unknown as nat));
    assert(with_unknown(m, e) == m1);
    assert(UnknownEntry { number: n, data: e.data } == e);
    let admitted = field_of(a.pool, a.index, n) matches Some(fd) && wire_admits(fd.kind, w);
    if admitted {
        let fd = field_of(a.pool, a.index, n)->Some_0;
        match e.data {
            UnknownPayload::Varint(v) => {
                let raw = signed32(v as nat) as i32;
                assert(varint_bytes(v as nat) == int32_bytes(raw));
                lemma_take_int32_bytes(raw, rest);
                if let FieldKind::List(k) = fd.kind {
                    assert(merge_list(m, n, k, fd.enum_type, tag, body + rest, depth, b) == (
                        m1,
                        Ok::<(Seq<u8>, Budget), DecodeError>((rest, b1)),
                    ));
                }
            },
            UnknownPayload::LengthDelimited(p) => {
                lemma_take_delimited_bytes(p, rest);
                if let FieldKind::Mapping { key, value } = fd.kind {
                    assert(merge_map(m, n, key, value, fd.enum_type, body + rest, depth, b) == (
                        m1,
                        Ok::<(Seq<u8>, Budget), DecodeError>((rest, b1)),
                    ));
                }
            },
            _ => {},
        }
    } else {
        assert(merge_unknown(m, tag, body + rest, depth, b) == (
            m1,
            Ok::<(Seq<u8>, Budget), DecodeError>((rest, b1)),
        ));
    }
    assert(merge_field(m, tag, body + rest, depth, b) == (
        m1,
        Ok::<(Seq<u8>, Budget), DecodeError>((rest, b1)),
    ));
    lemma_step(m, n, w, body, rest, end, depth, b, m1, b1);
}

/// Unknown fields that stay ones are kept, in their order.
proof fn lemma_unknown(
    a: MessageModel,
    done: Seq<UnknownEntry>,
    us: Seq<UnknownEntry>,
    rest: Seq<u8>,
    end: Option<u32>,
    depth: nat,
    b: Budget,
)
    requires
        unknown_sound(us),
        unknown_depth(us) <= depth,
        unknown_slots(us) <= b.unknown,
        forall|i: int| 0 <= i < us.len() ==> stays_unknown(a, #[trigger] us[i], depth),
    ensures
        merge_fields(carrying(a, done), unknown_bytes(us) + rest, end, depth, b) == merge_fields(
            carrying(a, done + us),
            rest,
            end,
            depth,
            spent(b, Cost { slots: unknown_slots(us), memory: 0 }),
        ),
    decreases us.len(),
{
    if us.len() == 0 {
        assert(Seq::<u8>::empty() + rest =~= rest);
        assert(done + us =~= done);
        assert(spent(b, Cost { slots: 0, memory: 0 }) == b);
    } else {
        let e = us[0];
        let more = us.subrange(1, us.len() as int);
        let head = tag_bytes(e.number, payload_wire(e.data)) + payload_bytes(e);
        let tail = unknown_bytes(more);
        let c0 = Cost { slots: entry_slots(e), memory: 0 };
        assert(unknown_bytes(us) + rest =~= head + (tail + rest));
        assert(entry_sound(e));
        assert forall|i: int| 0 <= i < more.len() implies stays_unknown(
            a,
            #[trigger] more[i],
            depth,
        ) by {
            assert(more[i] == us[i + 1]);
        }
        lemma_unknown_one(a, done, e, tail + rest, end, depth, b);
        lemma_unknown(a, done.push(e), more, rest, end, depth, spent(b, c0));
        assert(done.push(e) + more =~= done + us);
    }
}

/// A message is read back.
proof fn lemma_message(m: MessageModel, end: Option<u32>, tail: Seq<u8>, depth: nat, b: Budget)
    requires
        readable(m, depth),
        covers(b, message_cost(m)),
        message_bytes(m).len() <= usize::MAX,
        match end {
            Some(n) => 1 <= n <= MAX_FIELD_NUMBER,
            None => tail.len() == 0,
        },
    ensures
        merge_fields(
            empty_message(m.pool, m.index),
            message_bytes(m) + closing(end, tail),
            end,
            depth,
            b,
        ) == (
            read_message(m),
            Ok::<(Seq<u8>, Budget), DecodeError>((tail, spent(b, message_cost(m)))),
        ),
    decreases m, 7nat,
{
    let close = closing(end, tail);
    let ub = unknown_bytes(m.unknown);
    let fb = set_bytes(m.pool, m.index, m.fields);
    let n = m.fields.len() as int;
    let fs = m.fields.subrange(0, n);
    let c0 = fields_cost(m.pool, m.index, m.fields);
    let b1 = spent(b, c0);
    let us = stray_fields(m.pool, m.index, m.fields);
    assert(fs =~= m.fields);
    assert(decreases_to!(m => m.fields));
    assert(message_bytes(m) + close =~= fb + (ub + close));
    assert(halfway(m, 0) == empty_message(m.pool, m.index)) by {
        assert(m.fields.subrange(0, 0) =~= Seq::<(u32, ValueModel)>::empty());
    }
    lemma_fields(m, 0, m.fields, ub + close, end, depth, b);
    let a = halfway(m, n);
    assert(carrying(a, us) == a);
    assert forall|i: int| 0 <= i < m.unknown.len() implies stays_unknown(
        a,
        #[trigger] m.unknown[i],
        depth,
    ) by {
        assert(stays_unknown(m, m.unknown[i], depth));
    }
    lemma_unknown(a, us, m.unknown, close, end, depth, b1);
    assert(carrying(a, us + m.unknown) == read_message(m));
    if let Some(g) = end {
        lemma_take_tag_bytes(g, WireType::EndGroup, tail);
    } else {
        assert(close =~= Seq::<u8>::empty());
        assert(tail =~= close);
    }
}

/// Decoding what was encoded gives the message back in canonical form, with
/// every unknown field it had behind the entries that stray, wherever the limits
/// leave room for it.
pub proof fn law_decode_encode(m: MessageModel, o: DecodeOptions)
    requires
        readable(m, o.recursion_limit as nat),
        covers(full_budget(o), message_cost(m)),
        message_bytes(m).len() <= o.max_message_size,
    ensures
        decoded(m.pool, m.index, message_bytes(m), o) == Ok::<MessageModel, DecodeError>(
            canonical(m),
        ),
        canonical(m).unknown == stray_fields(m.pool, m.index, m.fields) + m.unknown,
{
    let s = message_bytes(m);
    lemma_message(m, None, Seq::empty(), o.recursion_limit as nat, full_budget(o));
    assert(s + closing(None, Seq::empty()) =~= s);
}

} // verus!
