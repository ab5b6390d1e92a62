//! What decoding does, as a function of the message that is there, the bytes,
//! and the limits: the message that results, and what is left or what failed.
//!
//! A failure leaves a message behind too: what was merged before it stays.
use vstd::prelude::*;
use crate::descriptor::{
    enum_is_closed, enum_knows, field_of, DescriptorPool, EnumIndex, EnumType, FieldDescriptor,
    FieldKind, ScalarType, SingularKind,
};
use crate::map::normal_entries;
use crate::scalar::{
    capped, key_default, packable, scalar_default, take_int32, take_key, take_scalar, wire_admits,
};
use crate::unknown::{skip_payload, take_payload, UnknownEntry, UnknownPayload};
use crate::value::{
    empty_message, field_del, field_get, list_at, map_at, with_field, KeyModel, MapKey,
    MessageModel, Value, ValueModel,
};
use crate::wire::{
    lemma_take_delimited, lemma_take_tag, take_delimited, take_tag, wire_code, wrap64, DecodeError,
    Tag, WireType,
};

verus! {

/// What a decode may still spend: unknown fields, and memory for elements of
/// lists and maps.
#[derive(Clone, Copy, Debug, PartialEq, Eq, Structural)]
pub struct Budget {
    pub unknown: usize,
    pub elements: usize,
}

/// What is left of the bytes and of the budget, or what failed.
pub type Left = Result<(Seq<u8>, Budget), DecodeError>;

/// The memory that a list element is charged with.
pub open spec fn element_cost() -> nat {
    vstd::layout::size_of::<Value>()
}

/// The memory that a map entry is charged with.
pub open spec fn entry_cost() -> nat {
    capped(vstd::layout::size_of::<MapKey>() + vstd::layout::size_of::<Value>()) as nat
}

/// The budget less `cost` bytes of memory.
pub open spec fn charge(b: Budget, cost: nat) -> Result<Budget, DecodeError> {
    if cost > b.elements {
        Err(DecodeError::ElementMemoryLimitExceeded)
    } else {
        Ok(Budget { unknown: b.unknown, elements: (b.elements - cost) as usize })
    }
}

/// The default of an element: that of its scalar, the number 0, or a message
/// with nothing set.
pub open spec fn element_default(kind: SingularKind, pool: DescriptorPool) -> ValueModel {
    match kind {
        SingularKind::Scalar(s) => scalar_default(s),
        SingularKind::Enum(_) => ValueModel::EnumNumber(0),
        SingularKind::Message(m) => ValueModel::Message(empty_message(pool, m)),
    }
}

/// A message arrived with a wire type that cannot carry it.
pub open spec fn not_a_message(tag: Tag) -> DecodeError {
    DecodeError::WireTypeMismatch {
        field_number: tag.field_number,
        expected: wire_code(WireType::LengthDelimited),
        actual: wire_code(tag.wire_type),
    }
}

// ── Unknown fields ──────────────────────────────────────────────────────────

/// The message with one more unknown field.
pub open spec fn with_unknown(m: MessageModel, e: UnknownEntry) -> MessageModel {
    MessageModel { unknown: m.unknown.push(e), ..m }
}

/// Keeps a field as an unknown one.
pub open spec fn keep_unknown(m: MessageModel, e: UnknownEntry, rest: Seq<u8>, b: Budget) -> (
    MessageModel,
    Left,
) {
    if b.unknown == 0 {
        (m, Err(DecodeError::UnknownFieldLimitExceeded))
    } else {
        (
            with_unknown(m, e),
            Ok((rest, Budget { unknown: (b.unknown - 1) as usize, elements: b.elements })),
        )
    }
}

/// Keeps an enum number as an unknown field.
pub open spec fn keep_number(
    m: MessageModel,
    number: u32,
    raw: i32,
    rest: Seq<u8>,
    b: Budget,
) -> (MessageModel, Left) {
    keep_unknown(
        m,
        UnknownEntry { number, data: UnknownPayload::Varint(wrap64(raw as int) as u64) },
        rest,
        b,
    )
}

/// Reads the payload behind `tag` as an unknown field.
pub open spec fn merge_unknown(m: MessageModel, tag: Tag, s: Seq<u8>, depth: nat, b: Budget) -> (
    MessageModel,
    Left,
) {
    match take_payload(tag, s, depth, Some(b.unknown as nat)) {
        Ok(p) => (
            with_unknown(m, UnknownEntry { number: tag.field_number, data: p.0 }),
            Ok((p.1, Budget { unknown: p.2->Some_0 as usize, elements: b.elements })),
        ),
        Err(e) => (m, Err(e)),
    }
}

// ── Oneofs ──────────────────────────────────────────────────────────────────

/// The fields without the members of a oneof, from the `i`-th on, other than
/// field `keep`.
pub open spec fn clear_members(
    fields: Seq<(u32, ValueModel)>,
    declared: Seq<FieldDescriptor>,
    members: Seq<u16>,
    keep: u32,
    i: nat,
) -> Seq<(u32, ValueModel)>
    decreases members.len() - i,
{
    if i >= members.len() {
        fields
    } else {
        let k = members[i as int] as int;
        if k < declared.len() && declared[k].number != keep {
            clear_members(field_del(fields, declared[k].number), declared, members, keep, i + 1)
        } else {
            clear_members(fields, declared, members, keep, i + 1)
        }
    }
}

/// The message without the members of the oneof other than field `keep`.
pub open spec fn clear_oneof(m: MessageModel, oneof: Option<u16>, keep: u32) -> MessageModel {
    let md = m.pool.message_seq()[m.index.0 as int];
    match oneof {
        Some(oi) => if oi < md.oneofs@.len() {
            MessageModel {
                fields: clear_members(
                    m.fields,
                    md.fields@,
                    md.oneofs@[oi as int].field_indices@,
                    keep,
                    0,
                ),
                ..m
            }
        } else {
            m
        },
        None => m,
    }
}

// ── Maps in order ───────────────────────────────────────────────────────────

/// The value with its entries in order, if it is a map.
pub open spec fn normal_value(v: ValueModel) -> ValueModel {
    match v {
        ValueModel::Mapping(e) => ValueModel::Mapping(normal_entries(e)),
        _ => v,
    }
}

/// The fields with the entries of every map in order.
pub open spec fn normal_fields(fields: Seq<(u32, ValueModel)>) -> Seq<(u32, ValueModel)> {
    Seq::new(fields.len(), |i: int| (fields[i].0, normal_value(fields[i].1)))
}

/// The message with the entries of every map in order.
pub open spec fn normal_message(m: MessageModel) -> MessageModel {
    MessageModel { fields: normal_fields(m.fields), ..m }
}

// ── Lists and maps of what needs no recursion ───────────────────────────────

/// The packed element at the front of `s`.
pub open spec fn take_packed(kind: SingularKind, number: u32, s: Seq<u8>) -> Result<
    (ValueModel, Seq<u8>),
    DecodeError,
> {
    match kind {
        SingularKind::Scalar(t) => take_scalar(t, s),
        SingularKind::Enum(_) => match take_int32(s) {
            Ok(p) => Ok((ValueModel::EnumNumber(p.0), p.1)),
            Err(e) => Err(e),
        },
        SingularKind::Message(_) => Err(
            DecodeError::WireTypeMismatch {
                field_number: number,
                expected: wire_code(WireType::Varint),
                actual: wire_code(WireType::LengthDelimited),
            },
        ),
    }
}

/// Adds the packed elements of `s` to the list, each charged before it is
/// read. What was added before a failure stays.
pub open spec fn merge_packed(
    kind: SingularKind,
    number: u32,
    l: Seq<ValueModel>,
    s: Seq<u8>,
    b: Budget,
) -> (Seq<ValueModel>, Result<Budget, DecodeError>)
    decreases s.len(),
{
    if s.len() == 0 {
        (l, Ok(b))
    } else {
        match charge(b, element_cost()) {
            Err(e) => (l, Err(e)),
            Ok(b1) => match take_packed(kind, number, s) {
                Err(e) => (l, Err(e)),
                // An element takes at least one byte.
                Ok(p) => if p.1.len() >= s.len() {
                    (l, Err(DecodeError::UnexpectedEof))
                } else {
                    merge_packed(kind, number, l.push(p.0), p.1, b1)
                },
            },
        }
    }
}

/// Sorts the packed numbers of `s`: those that the closed enum declares are
/// charged and collected, the others kept as unknown fields. What was kept
/// before a failure stays.
pub open spec fn merge_packed_closed(
    m: MessageModel,
    number: u32,
    e: EnumIndex,
    known: Seq<ValueModel>,
    s: Seq<u8>,
    b: Budget,
) -> (MessageModel, Result<(Seq<ValueModel>, Budget), DecodeError>)
    decreases s.len(),
{
    if s.len() == 0 {
        (m, Ok((known, b)))
    } else {
        match take_int32(s) {
            Err(e) => (m, Err(e)),
            Ok(p) => if p.1.len() >= s.len() {
                (m, Err(DecodeError::UnexpectedEof))
            } else if enum_knows(m.pool, e, Some(EnumType::Closed), p.0) {
                match charge(b, element_cost()) {
                    Err(e) => (m, Err(e)),
                    Ok(b1) => merge_packed_closed(
                        m,
                        number,
                        e,
                        known.push(ValueModel::EnumNumber(p.0)),
                        p.1,
                        b1,
                    ),
                }
            } else {
                match keep_number(m, number, p.0, p.1, b) {
                    (m1, Err(e)) => (m1, Err(e)),
                    (m1, Ok(r)) => merge_packed_closed(m1, number, e, known, p.1, r.1),
                }
            },
        }
    }
}

/// The message with the numbers behind the list of field `number`; unchanged
/// where there are none.
pub open spec fn add_known(m: MessageModel, number: u32, known: Seq<ValueModel>) -> MessageModel {
    if known.len() == 0 {
        m
    } else {
        with_field(m, number, ValueModel::List(list_at(m.fields, number) + known))
    }
}

/// Merges a list of a closed enum.
pub open spec fn merge_closed_list(
    m: MessageModel,
    number: u32,
    e: EnumIndex,
    tag: Tag,
    s: Seq<u8>,
    b: Budget,
) -> (MessageModel, Left) {
    if tag.wire_type == WireType::LengthDelimited {
        match take_delimited(s) {
            Err(e) => (m, Err(e)),
            Ok(p) => match merge_packed_closed(m, number, e, Seq::empty(), p.0, b) {
                (m1, Err(e)) => (m1, Err(e)),
                (m1, Ok(r)) => (add_known(m1, number, r.0), Ok((p.1, r.1))),
            },
        }
    } else {
        match take_int32(s) {
            Err(e) => (m, Err(e)),
            Ok(p) => if enum_knows(m.pool, e, Some(EnumType::Closed), p.0) {
                match charge(b, element_cost()) {
                    Err(e) => (m, Err(e)),
                    Ok(b1) => (
                        add_known(m, number, seq![ValueModel::EnumNumber(p.0)]),
                        Ok((p.1, b1)),
                    ),
                }
            } else {
                keep_number(m, number, p.0, p.1, b)
            },
        }
    }
}

/// What the value field of a map entry of a closed enum held last.
pub enum ClosedValue {
    /// There was none.
    Absent,
    /// A number that the enum declares.
    Known(i32),
    /// A number that it does not declare.
    Unknown,
}

/// Reads a map entry of a closed enum: the last key and the last value.
pub open spec fn take_closed_entry(
    pool: DescriptorPool,
    key_type: ScalarType,
    e: EnumIndex,
    s: Seq<u8>,
    depth: nat,
    key: Option<KeyModel>,
    value: ClosedValue,
) -> Result<(Option<KeyModel>, ClosedValue), DecodeError>
    decreases s.len(),
{
    if s.len() == 0 {
        Ok((key, value))
    } else {
        match take_tag(s) {
            Err(x) => Err(x),
            Ok(t) => if t.0.field_number == 1 {
                match take_key(key_type, t.0, t.1) {
                    Err(x) => Err(x),
                    Ok(p) => if p.1.len() >= s.len() {
                        Err(DecodeError::UnexpectedEof)
                    } else {
                        take_closed_entry(pool, key_type, e, p.1, depth, Some(p.0), value)
                    },
                }
            } else if t.0.field_number == 2 {
                match take_int32(t.1) {
                    Err(x) => Err(x),
                    Ok(p) => if p.1.len() >= s.len() {
                        Err(DecodeError::UnexpectedEof)
                    } else if enum_knows(pool, e, Some(EnumType::Closed), p.0) {
                        take_closed_entry(
                            pool,
                            key_type,
                            e,
                            p.1,
                            depth,
                            key,
                            ClosedValue::Known(p.0),
                        )
                    } else {
                        take_closed_entry(
                            pool,
                            key_type,
                            e,
                            p.1,
                            depth,
                            key,
                            ClosedValue::Unknown,
                        )
                    },
                }
            } else {
                match skip_payload(t.0, t.1, depth) {
                    Err(x) => Err(x),
                    Ok(rest) => if rest.len() >= s.len() {
                        Err(DecodeError::UnexpectedEof)
                    } else {
                        take_closed_entry(pool, key_type, e, rest, depth, key, value)
                    },
                }
            },
        }
    }
}

/// The message with an entry behind those of the map of field `number`.
pub open spec fn add_entry(
    m: MessageModel,
    number: u32,
    k: KeyModel,
    v: ValueModel,
) -> MessageModel {
    with_field(m, number, ValueModel::Mapping(map_at(m.fields, number).push((k, v))))
}

/// `o`, or `d` where there is none.
pub open spec fn or_default<T>(o: Option<T>, d: T) -> T {
    match o {
        Some(x) => x,
        None => d,
    }
}

/// Merges a map entry of a closed enum. An entry with a number that the enum
/// does not declare is kept whole as an unknown field.
pub open spec fn merge_closed_map(
    m: MessageModel,
    number: u32,
    key_type: ScalarType,
    e: EnumIndex,
    s: Seq<u8>,
    depth: nat,
    b: Budget,
) -> (MessageModel, Left) {
    match take_delimited(s) {
        Err(x) => (m, Err(x)),
        Ok(p) => match take_closed_entry(
            m.pool,
            key_type,
            e,
            p.0,
            depth,
            None,
            ClosedValue::Absent,
        ) {
            Err(x) => (m, Err(x)),
            Ok(r) => match r.1 {
                ClosedValue::Unknown => keep_unknown(
                    m,
                    UnknownEntry { number, data: UnknownPayload::LengthDelimited(p.0) },
                    p.1,
                    b,
                ),
                _ => match charge(b, entry_cost()) {
                    Err(x) => (m, Err(x)),
                    Ok(b1) => (
                        add_entry(
                            m,
                            number,
                            or_default(r.0, key_default(key_type)),
                            ValueModel::EnumNumber(
                                match r.1 {
                                    ClosedValue::Known(n) => n,
                                    _ => 0,
                                },
                            ),
                        ),
                        Ok((p.1, b1)),
                    ),
                },
            },
        },
    }
}

// ── Fields ──────────────────────────────────────────────────────────────────

/// Merges fields up to the end of the bytes or, inside a group, up to the tag
/// that closes the group `end`.
pub open spec fn merge_fields(
    m: MessageModel,
    s: Seq<u8>,
    end: Option<u32>,
    depth: nat,
    b: Budget,
) -> (MessageModel, Left)
    decreases depth, s.len(), 4nat,
{
    proof {
        lemma_take_tag(s);
    }
    if end is None && s.len() == 0 {
        (m, Ok((s, b)))
    } else {
        match take_tag(s) {
            Err(e) => (m, Err(e)),
            Ok(t) => if end is Some && t.0.wire_type == WireType::EndGroup {
                if t.0.field_number != end->Some_0 {
                    (m, Err(DecodeError::InvalidEndGroup(t.0.field_number)))
                } else {
                    (m, Ok((t.1, b)))
                }
            } else {
                match merge_field(m, t.0, t.1, depth, b) {
                    (m1, Err(e)) => (m1, Err(e)),
                    // What is left never grows.
                    (m1, Ok(r)) => if r.0.len() >= s.len() {
                        (m1, Err(DecodeError::UnexpectedEof))
                    } else {
                        merge_fields(m1, r.0, end, depth, r.1)
                    },
                }
            },
        }
    }
}

/// Merges fields, then puts the entries of every map in order, on failure too.
pub open spec fn merge_message(
    m: MessageModel,
    s: Seq<u8>,
    end: Option<u32>,
    depth: nat,
    b: Budget,
) -> (MessageModel, Left)
    decreases depth, s.len(), 5nat,
{
    let r = merge_fields(m, s, end, depth, b);
    (normal_message(r.0), r.1)
}

/// Merges the field whose tag was read.
pub open spec fn merge_field(m: MessageModel, tag: Tag, s: Seq<u8>, depth: nat, b: Budget) -> (
    MessageModel,
    Left,
)
    decreases depth, s.len(), 3nat,
{
    let n = tag.field_number;
    match field_of(m.pool, m.index, n) {
        None => merge_unknown(m, tag, s, depth, b),
        Some(fd) => if !wire_admits(fd.kind, tag.wire_type) {
            merge_unknown(m, tag, s, depth, b)
        } else {
            match fd.kind {
                FieldKind::Singular(SingularKind::Enum(e)) => match take_int32(s) {
                    Err(x) => (m, Err(x)),
                    Ok(p) => if !enum_knows(m.pool, e, fd.enum_type, p.0) {
                        keep_number(m, n, p.0, p.1, b)
                    } else {
                        (
                            with_field(
                                clear_oneof(m, fd.oneof_index, n),
                                n,
                                ValueModel::EnumNumber(p.0),
                            ),
                            Ok((p.1, b)),
                        )
                    },
                },
                FieldKind::Singular(k) => if k is Message && field_get(m.fields, n) matches Some(
                    ValueModel::Message(_),
                ) {
                    merge_existing(clear_oneof(m, fd.oneof_index, n), n, tag, s, depth, b)
                } else {
                    match take_element(m.pool, k, tag, s, depth, b) {
                        Err(x) => (m, Err(x)),
                        Ok(r) => (
                            with_field(clear_oneof(m, fd.oneof_index, n), n, r.0),
                            Ok((r.1, r.2)),
                        ),
                    }
                },
                FieldKind::List(k) => merge_list(m, n, k, fd.enum_type, tag, s, depth, b),
                FieldKind::Mapping { key, value } => merge_map(
                    m,
                    n,
                    key,
                    value,
                    fd.enum_type,
                    s,
                    depth,
                    b,
                ),
            }
        },
    }
}

/// Merges the bytes of a message into `x`.
pub open spec fn merge_body(x: MessageModel, tag: Tag, s: Seq<u8>, depth: nat, b: Budget) -> (
    MessageModel,
    Left,
)
    decreases depth, s.len(), 6nat,
{
    proof {
        lemma_take_delimited(s);
    }
    match tag.wire_type {
        WireType::LengthDelimited => match take_delimited(s) {
            Err(e) => (x, Err(e)),
            Ok(p) => match merge_message(x, p.0, None, depth, b) {
                (x1, Err(e)) => (x1, Err(e)),
                (x1, Ok(r)) => (x1, Ok((p.1, r.1))),
            },
        },
        WireType::StartGroup => merge_message(x, s, Some(tag.field_number), depth, b),
        _ => (x, Err(not_a_message(tag))),
    }
}

/// Merges the bytes of a message into the one that field `n` holds.
pub open spec fn merge_existing(
    m: MessageModel,
    n: u32,
    tag: Tag,
    s: Seq<u8>,
    depth: nat,
    b: Budget,
) -> (MessageModel, Left)
    decreases depth, s.len(), 2nat,
{
    if depth == 0 {
        (m, Err(DecodeError::RecursionLimitExceeded))
    } else {
        match field_get(m.fields, n) {
            Some(ValueModel::Message(x)) => {
                let r = merge_body(x, tag, s, (depth - 1) as nat, b);
                (with_field(m, n, ValueModel::Message(r.0)), r.1)
            },
            _ => (m, Ok((s, b))),
        }
    }
}

/// The element behind `tag` at the front of `s`.
pub open spec fn take_element(
    pool: DescriptorPool,
    kind: SingularKind,
    tag: Tag,
    s: Seq<u8>,
    depth: nat,
    b: Budget,
) -> Result<(ValueModel, Seq<u8>, Budget), DecodeError>
    decreases depth, s.len(), 1nat,
{
    match kind {
        SingularKind::Scalar(t) => match take_scalar(t, s) {
            Ok(p) => Ok((p.0, p.1, b)),
            Err(e) => Err(e),
        },
        SingularKind::Enum(_) => match take_int32(s) {
            Ok(p) => Ok((ValueModel::EnumNumber(p.0), p.1, b)),
            Err(e) => Err(e),
        },
        SingularKind::Message(i) => if depth == 0 {
            Err(DecodeError::RecursionLimitExceeded)
        } else {
            match merge_body(empty_message(pool, i), tag, s, (depth - 1) as nat, b) {
                (_, Err(e)) => Err(e),
                (x, Ok(r)) => Ok((ValueModel::Message(x), r.0, r.1)),
            }
        },
    }
}

/// Merges a list: a payload of packed elements, or one element.
pub open spec fn merge_list(
    m: MessageModel,
    n: u32,
    kind: SingularKind,
    enum_type: Option<EnumType>,
    tag: Tag,
    s: Seq<u8>,
    depth: nat,
    b: Budget,
) -> (MessageModel, Left)
    decreases depth, s.len(), 2nat,
{
    if kind matches SingularKind::Enum(e) && enum_is_closed(m.pool, e, enum_type) {
        merge_closed_list(m, n, kind->Enum_0, tag, s, b)
    } else {
        let l = list_at(m.fields, n);
        let m0 = with_field(m, n, ValueModel::List(l));
        if tag.wire_type == WireType::LengthDelimited && packable(kind) {
            match take_delimited(s) {
                Err(e) => (m0, Err(e)),
                Ok(p) => match merge_packed(kind, n, l, p.0, b) {
                    (l1, Err(e)) => (with_field(m, n, ValueModel::List(l1)), Err(e)),
                    (l1, Ok(b1)) => (with_field(m, n, ValueModel::List(l1)), Ok((p.1, b1))),
                },
            }
        } else {
            match take_element(m.pool, kind, tag, s, depth, b) {
                Err(e) => (m0, Err(e)),
                Ok(r) => match charge(r.2, element_cost()) {
                    Err(e) => (m0, Err(e)),
                    Ok(b1) => (with_field(m, n, ValueModel::List(l.push(r.0))), Ok((r.1, b1))),
                },
            }
        }
    }
}

/// Reads a map entry: the last key and the last value. Other fields are
/// skipped.
pub open spec fn take_entry(
    pool: DescriptorPool,
    key_type: ScalarType,
    kind: SingularKind,
    s: Seq<u8>,
    depth: nat,
    b: Budget,
    key: Option<KeyModel>,
    value: Option<ValueModel>,
) -> Result<(Option<KeyModel>, Option<ValueModel>, Budget), DecodeError>
    decreases depth, s.len(), 2nat,
{
    proof {
        lemma_take_tag(s);
    }
    if s.len() == 0 {
        Ok((key, value, b))
    } else {
        match take_tag(s) {
            Err(e) => Err(e),
            Ok(t) => if t.0.field_number == 1 {
                match take_key(key_type, t.0, t.1) {
                    Err(e) => Err(e),
                    Ok(p) => if p.1.len() >= s.len() {
                        Err(DecodeError::UnexpectedEof)
                    } else {
                        take_entry(pool, key_type, kind, p.1, depth, b, Some(p.0), value)
                    },
                }
            } else if t.0.field_number == 2 {
                match take_element(pool, kind, t.0, t.1, depth, b) {
                    Err(e) => Err(e),
                    Ok(r) => if r.1.len() >= s.len() {
                        Err(DecodeError::UnexpectedEof)
                    } else {
                        take_entry(pool, key_type, kind, r.1, depth, r.2, key, Some(r.0))
                    },
                }
            } else {
                match skip_payload(t.0, t.1, depth) {
                    Err(e) => Err(e),
                    Ok(rest) => if rest.len() >= s.len() {
                        Err(DecodeError::UnexpectedEof)
                    } else {
                        take_entry(pool, key_type, kind, rest, depth, b, key, value)
                    },
                }
            },
        }
    }
}

/// Merges a map entry. A key or a value that is missing is the default one.
pub open spec fn merge_map(
    m: MessageModel,
    n: u32,
    key_type: ScalarType,
    kind: SingularKind,
    enum_type: Option<EnumType>,
    s: Seq<u8>,
    depth: nat,
    b: Budget,
) -> (MessageModel, Left)
    decreases depth, s.len(), 2nat,
{
    proof {
        lemma_take_delimited(s);
    }
    if kind matches SingularKind::Enum(e) && enum_is_closed(m.pool, e, enum_type) {
        merge_closed_map(m, n, key_type, kind->Enum_0, s, depth, b)
    } else {
        match take_delimited(s) {
            Err(e) => (m, Err(e)),
            Ok(p) => match take_entry(m.pool, key_type, kind, p.0, depth, b, None, None) {
                Err(e) => (m, Err(e)),
                Ok(r) => match charge(r.2, entry_cost()) {
                    Err(e) => (m, Err(e)),
                    Ok(b1) => (
                        add_entry(
                            m,
                            n,
                            or_default(r.0, key_default(key_type)),
                            or_default(r.1, element_default(kind, m.pool)),
                        ),
                        Ok((p.1, b1)),
                    ),
                },
            },
        }
    }
}

} // verus!
