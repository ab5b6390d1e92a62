//! What decoding does with one field after another.
use vstd::prelude::*;
use crate::decode::{decoded, default_options, depth_options, merged, DecodeOptions};
use crate::descriptor::{
    consistent_message, enum_is_closed, enum_knows, field_of, lemma_field_of, listed_in_oneof,
    names_oneof, pool_linked, DescriptorPool, EnumIndex, EnumType, FieldDescriptor, FieldKind,
    MessageIndex, ScalarType, SingularKind,
};
use crate::laws::lemma_put_reads;
use crate::map::{
    bytes_before, entries_sorted, entry_put, key_before, lemma_key_order_total,
    lemma_normal_entries_sorted, normal_entries,
};
use crate::merge::{
    element_default, merge_body, merge_field, merge_fields, merge_message, merge_packed,
    merge_packed_closed, normal_message, take_closed_entry, take_element, take_entry, Budget,
    ClosedValue,
};
use crate::roundtrip::in_oneof;
use crate::scalar::{capped, key_default, packable, take_int32, take_key, take_scalar, wire_admits};
use crate::unknown::{skip_payload, take_payload, UnknownEntry, UnknownPayload};
use crate::value::{
    empty_message, field_get, fields_sorted, lemma_put_get, list_at, map_at, KeyModel, MapKey,
    MessageModel, Value, ValueModel,
};
use crate::wire::{lemma_take_tag, take_delimited, take_tag, DecodeError, Tag, WireType};
use crate::wire_laws::{low_bits, mod64};

verus! {

// ── Oneofs ──────────────────────────────────────────────────────────────────

/// Number `n` is that of another field of the oneof that `fd` belongs to.
pub open spec fn sibling(
    pool: DescriptorPool,
    index: MessageIndex,
    fd: FieldDescriptor,
    n: u32,
) -> bool {
    n != fd.number && fd.oneof_index is Some && exists|j: int|
        0 <= j < pool.message_seq()[index.0 as int].fields@.len() && (
        #[trigger] pool.message_seq()[index.0 as int].fields@[j]).number == n
            && pool.message_seq()[index.0 as int].fields@[j].oneof_index == fd.oneof_index
}

/// The other members of a oneof are the fields that name it.
pub proof fn law_siblings(pool: DescriptorPool, index: MessageIndex, fd: FieldDescriptor, n: u32)
    requires
        pool_linked(pool),
        index.0 < pool.message_seq().len(),
    ensures
        sibling(pool, index, fd, n) <==> n != fd.number && in_oneof(
            pool,
            index,
            fd.oneof_index,
            n,
        ),
{
    let md = pool.message_seq()[index.0 as int];
    assert(consistent_message(md));
    if n != fd.number && in_oneof(pool, index, fd.oneof_index, n) {
        let oi = fd.oneof_index->Some_0;
        let k = choose|k: int|
            0 <= k < md.oneofs@[oi as int].field_indices@.len() && (
            #[trigger] md.oneofs@[oi as int].field_indices@[k]) < md.fields@.len()
                && md.fields@[md.oneofs@[oi as int].field_indices@[k] as int].number == n;
        let j = md.oneofs@[oi as int].field_indices@[k];
        assert(names_oneof(md, oi as int, j));
        assert(pool.message_seq()[index.0 as int].fields@[j as int].number == n);
    }
    if sibling(pool, index, fd, n) {
        let j = choose|j: int|
            0 <= j < md.fields@.len() && (#[trigger] md.fields@[j]).number == n
                && md.fields@[j].oneof_index == fd.oneof_index;
        assert(listed_in_oneof(md, md.fields@[j].oneof_index, j));
    }
}

/// `x` is `m` with field `fd` holding `v`: the other members of its oneof are
/// gone, and everything else is as it was.
pub open spec fn holds_instead(
    m: MessageModel,
    fd: FieldDescriptor,
    v: ValueModel,
    x: MessageModel,
) -> bool {
    &&& x.pool == m.pool
    &&& x.index == m.index
    &&& x.unknown == m.unknown
    &&& field_get(x.fields, fd.number) == Some(v)
    &&& forall|n: u32|
        n != fd.number ==> #[trigger] field_get(x.fields, n) == if sibling(m.pool, m.index, fd, n) {
            None
        } else {
            field_get(m.fields, n)
        }
}

/// Putting a value in a field, with the rest of its oneof taken away, makes the
/// field hold it instead.
pub proof fn lemma_held_instead(m: MessageModel, fd: FieldDescriptor, v: ValueModel)
    requires
        pool_linked(m.pool),
        m.index.0 < m.pool.message_seq().len(),
        fields_sorted(m.fields),
    ensures
        holds_instead(
            m,
            fd,
            v,
            crate::value::with_field(
                crate::merge::clear_oneof(m, fd.oneof_index, fd.number),
                fd.number,
                v,
            ),
        ),
{
    let x = crate::value::with_field(
        crate::merge::clear_oneof(m, fd.oneof_index, fd.number),
        fd.number,
        v,
    );
    lemma_put_reads(m, fd.oneof_index, fd.number, v, fd.number);
    assert forall|n: u32| n != fd.number implies #[trigger] field_get(x.fields, n) == (if sibling(
        m.pool,
        m.index,
        fd,
        n,
    ) {
        None
    } else {
        field_get(m.fields, n)
    }) by {
        lemma_put_reads(m, fd.oneof_index, fd.number, v, n);
        law_siblings(m.pool, m.index, fd, n);
    }
}

// ── Singular fields ─────────────────────────────────────────────────────────

/// The last occurrence of a scalar counts: a field holds the value that was read
/// last, whatever it held. Where none can be read, nothing changes.
pub proof fn law_last_scalar(m: MessageModel, tag: Tag, s: Seq<u8>, depth: nat, b: Budget)
    requires
        pool_linked(m.pool),
        m.index.0 < m.pool.message_seq().len(),
        fields_sorted(m.fields),
        field_of(m.pool, m.index, tag.field_number) matches Some(fd) && wire_admits(
            fd.kind,
            tag.wire_type,
        ) && fd.kind matches FieldKind::Singular(SingularKind::Scalar(_)),
    ensures
        ({
            let fd = field_of(m.pool, m.index, tag.field_number)->Some_0;
            let t = fd.kind->Singular_0->Scalar_0;
            let r = merge_field(m, tag, s, depth, b);
            match take_scalar(t, s) {
                Ok(p) => holds_instead(m, fd, p.0, r.0) && r.1 == Ok::<
                    (Seq<u8>, Budget),
                    DecodeError,
                >((p.1, b)),
                Err(e) => r.0 == m && r.1 == Err::<(Seq<u8>, Budget), DecodeError>(e),
            }
        }),
{
    let fd = field_of(m.pool, m.index, tag.field_number)->Some_0;
    let t = fd.kind->Singular_0->Scalar_0;
    lemma_field_of(m.pool, m.index, tag.field_number);
    if let Ok(p) = take_scalar(t, s) {
        lemma_held_instead(m, fd, p.0);
    }
}

/// So does the last number of an enum, if it is a value of it. One that is not is
/// kept as an unknown field, and the field holds what it held.
pub proof fn law_last_number(m: MessageModel, tag: Tag, s: Seq<u8>, depth: nat, b: Budget)
    requires
        pool_linked(m.pool),
        m.index.0 < m.pool.message_seq().len(),
        fields_sorted(m.fields),
        field_of(m.pool, m.index, tag.field_number) matches Some(fd) && wire_admits(
            fd.kind,
            tag.wire_type,
        ) && fd.kind matches FieldKind::Singular(SingularKind::Enum(_)),
    ensures
        ({
            let fd = field_of(m.pool, m.index, tag.field_number)->Some_0;
            let e = fd.kind->Singular_0->Enum_0;
            let r = merge_field(m, tag, s, depth, b);
            match take_int32(s) {
                Ok(p) => if enum_knows(m.pool, e, fd.enum_type, p.0) {
                    holds_instead(m, fd, ValueModel::EnumNumber(p.0), r.0) && r.1 == Ok::<
                        (Seq<u8>, Budget),
                        DecodeError,
                    >((p.1, b))
                } else {
                    keeps_unknown(
                        m,
                        UnknownEntry {
                            number: tag.field_number,
                            data: UnknownPayload::Varint(mod64(p.0 as int) as u64),
                        },
                        p.1,
                        b,
                        r.0,
                        r.1,
                    )
                },
                Err(x) => r.0 == m && r.1 == Err::<(Seq<u8>, Budget), DecodeError>(x),
            }
        }),
{
    let fd = field_of(m.pool, m.index, tag.field_number)->Some_0;
    lemma_field_of(m.pool, m.index, tag.field_number);
    if let Ok(p) = take_int32(s) {
        lemma_held_instead(m, fd, ValueModel::EnumNumber(p.0));
    }
}

/// `x` is `m` with one more unknown field behind the others, for which one slot
/// of the budget was spent; or `m`, where there was none left.
pub open spec fn keeps_unknown(
    m: MessageModel,
    e: UnknownEntry,
    rest: Seq<u8>,
    b: Budget,
    x: MessageModel,
    r: Result<(Seq<u8>, Budget), DecodeError>,
) -> bool {
    if b.unknown == 0 {
        x == m && r == Err::<(Seq<u8>, Budget), DecodeError>(
            DecodeError::UnknownFieldLimitExceeded,
        )
    } else {
        &&& x.pool == m.pool
        &&& x.index == m.index
        &&& x.fields == m.fields
        &&& x.unknown == m.unknown.push(e)
        &&& r matches Ok(p) && p.0 == rest && p.1.unknown + 1 == b.unknown && p.1.elements
            == b.elements
    }
}

/// The message that a field holds, or one with nothing set.
pub open spec fn message_there(m: MessageModel, n: u32, i: MessageIndex) -> MessageModel {
    match field_get(m.fields, n) {
        Some(ValueModel::Message(x)) => x,
        _ => empty_message(m.pool, i),
    }
}

/// A message is merged into the one that is there, or into one with nothing set;
/// what it is merged with has one level less. Where there was one, what was
/// merged before a failure stays.
pub proof fn law_merge_nested(m: MessageModel, tag: Tag, s: Seq<u8>, depth: nat, b: Budget)
    requires
        pool_linked(m.pool),
        m.index.0 < m.pool.message_seq().len(),
        fields_sorted(m.fields),
        field_of(m.pool, m.index, tag.field_number) matches Some(fd) && wire_admits(
            fd.kind,
            tag.wire_type,
        ) && fd.kind matches FieldKind::Singular(SingularKind::Message(_)),
    ensures
        ({
            let n = tag.field_number;
            let fd = field_of(m.pool, m.index, n)->Some_0;
            let i = fd.kind->Singular_0->Message_0;
            let r = merge_field(m, tag, s, depth, b);
            if depth == 0 {
                r.1 == Err::<(Seq<u8>, Budget), DecodeError>(DecodeError::RecursionLimitExceeded)
                    && field_get(r.0.fields, n) == field_get(m.fields, n)
            } else {
                let x = merge_body(message_there(m, n, i), tag, s, (depth - 1) as nat, b);
                &&& r.1 == x.1
                &&& x.1 is Ok ==> holds_instead(m, fd, ValueModel::Message(x.0), r.0)
                &&& x.1 is Err ==> if field_get(m.fields, n) matches Some(ValueModel::Message(_)) {
                    field_get(r.0.fields, n) == Some(ValueModel::Message(x.0))
                } else {
                    r.0 == m
                }
            }
        }),
{
    let n = tag.field_number;
    let fd = field_of(m.pool, m.index, n)->Some_0;
    let i = fd.kind->Singular_0->Message_0;
    lemma_field_of(m.pool, m.index, n);
    let c = crate::merge::clear_oneof(m, fd.oneof_index, n);
    lemma_kept_number(m, fd.oneof_index, n);
    if depth > 0 {
        let x = merge_body(message_there(m, n, i), tag, s, (depth - 1) as nat, b);
        lemma_held_instead(m, fd, ValueModel::Message(x.0));
    }
}

/// Clearing the others of a oneof leaves the field itself alone.
proof fn lemma_kept_number(m: MessageModel, oneof: Option<u16>, n: u32)
    ensures
        field_get(crate::merge::clear_oneof(m, oneof, n).fields, n) == field_get(m.fields, n),
{
    let md = m.pool.message_seq()[m.index.0 as int];
    if let Some(oi) = oneof {
        if oi < md.oneofs@.len() {
            lemma_kept_members(
                m.fields,
                md.fields@,
                md.oneofs@[oi as int].field_indices@,
                n,
                0,
            );
        }
    }
}

proof fn lemma_kept_members(
    fields: Seq<(u32, ValueModel)>,
    declared: Seq<FieldDescriptor>,
    members: Seq<u16>,
    keep: u32,
    i: nat,
)
    ensures
        field_get(crate::merge::clear_members(fields, declared, members, keep, i), keep)
            == field_get(fields, keep),
    decreases members.len() - i,
{
    if i < members.len() {
        let k = members[i as int] as int;
        if k < declared.len() && declared[k].number != keep {
            crate::merge_kept::lemma_del_get(fields, declared[k].number, keep);
            lemma_kept_members(
                crate::value::field_del(fields, declared[k].number),
                declared,
                members,
                keep,
                i + 1,
            );
        } else {
            lemma_kept_members(fields, declared, members, keep, i + 1);
        }
    }
}

/// The bytes of a message are a payload behind its length, or stand up to the tag
/// that closes the group.
pub proof fn law_message_body(x: MessageModel, tag: Tag, s: Seq<u8>, depth: nat, b: Budget)
    ensures
        ({
            let r = merge_body(x, tag, s, depth, b);
            match tag.wire_type {
                WireType::LengthDelimited => match take_delimited(s) {
                    Ok(p) => {
                        let y = merge_message(x, p.0, None, depth, b);
                        &&& r.0 == y.0
                        &&& y.1 matches Ok(q) ==> r.1 == Ok::<(Seq<u8>, Budget), DecodeError>(
                            (p.1, q.1),
                        )
                        &&& y.1 matches Err(e) ==> r.1 == Err::<(Seq<u8>, Budget), DecodeError>(e)
                    },
                    Err(e) => r.0 == x && r.1 == Err::<(Seq<u8>, Budget), DecodeError>(e),
                },
                WireType::StartGroup => r == merge_message(x, s, Some(tag.field_number), depth, b),
                _ => r.0 == x && (r.1 matches Err(DecodeError::WireTypeMismatch {
                    field_number,
                    expected,
                    actual,
                }) && field_number == tag.field_number && expected == 2 && actual == low_bits(
                    tag.wire_type,
                )),
            }
        }),
{
}

// ── One field after another ─────────────────────────────────────────────────

/// Fields are merged one by one in the order of the bytes, up to their end or to
/// the tag that closes the group, which must be of its number. A failure ends
/// it, and what was merged before stays.
pub proof fn law_field_by_field(
    m: MessageModel,
    s: Seq<u8>,
    end: Option<u32>,
    depth: nat,
    b: Budget,
)
    ensures
        ({
            let all = merge_fields(m, s, end, depth, b);
            match take_tag(s) {
                Ok(t) => if t.0.wire_type == WireType::EndGroup && end is Some {
                    all.0 == m && all.1 == if end == Some(t.0.field_number) {
                        Ok((t.1, b))
                    } else {
                        Err(DecodeError::InvalidEndGroup(t.0.field_number))
                    }
                } else {
                    let r = merge_field(m, t.0, t.1, depth, b);
                    &&& r.1 matches Err(e) ==> all.0 == r.0 && all.1 == Err::<
                        (Seq<u8>, Budget),
                        DecodeError,
                    >(e)
                    &&& r.1 matches Ok(p) ==> p.0.len() < s.len() ==> all == merge_fields(
                        r.0,
                        p.0,
                        end,
                        depth,
                        p.1,
                    )
                },
                Err(e) => all.0 == m && all.1 == if s.len() == 0 && end is None {
                    Ok((s, b))
                } else {
                    Err(e)
                },
            }
        }),
{
    lemma_take_tag(s);
}

/// A field that the message does not have, or that comes with a wire type that it
/// cannot have, is kept as an unknown field, behind the others; the fields stay
/// as they are.
pub proof fn law_unknown_kept(m: MessageModel, tag: Tag, s: Seq<u8>, depth: nat, b: Budget)
    requires
        field_of(m.pool, m.index, tag.field_number) matches Some(fd) ==> !wire_admits(
            fd.kind,
            tag.wire_type,
        ),
    ensures
        ({
            let r = merge_field(m, tag, s, depth, b);
            &&& r.0.fields == m.fields
            &&& r.0.pool == m.pool
            &&& r.0.index == m.index
            &&& match take_payload(tag, s, depth, Some(b.unknown as nat)) {
                Ok(p) => {
                    &&& r.0.unknown == m.unknown.push(
                        UnknownEntry { number: tag.field_number, data: p.0 },
                    )
                    &&& r.1 matches Ok(q) && q.0 == p.1 && q.1.elements == b.elements
                        && p.2 == Some(q.1.unknown as nat)
                },
                Err(e) => r.0 == m && r.1 == Err::<(Seq<u8>, Budget), DecodeError>(e),
            }
        }),
{
    crate::unknown::lemma_take_payload(tag, s, depth, Some(b.unknown as nat));
}

// ── Lists ───────────────────────────────────────────────────────────────────

/// `x` is `m` with field `n` holding `v`, and everything else as it was.
pub open spec fn differs_in(m: MessageModel, n: u32, v: ValueModel, x: MessageModel) -> bool {
    &&& x.pool == m.pool
    &&& x.index == m.index
    &&& x.unknown == m.unknown
    &&& field_get(x.fields, n) == Some(v)
    &&& forall|k: u32| k != n ==> #[trigger] field_get(x.fields, k) == field_get(m.fields, k)
}

proof fn lemma_differs(m: MessageModel, n: u32, v: ValueModel)
    ensures
        differs_in(m, n, v, crate::value::with_field(m, n, v)),
{
    let x = crate::value::with_field(m, n, v);
    lemma_put_get(m.fields, n, v, n);
    assert forall|k: u32| k != n implies #[trigger] field_get(x.fields, k) == field_get(
        m.fields,
        k,
    ) by {
        lemma_put_get(m.fields, n, v, k);
    }
}

/// An element of a list is added behind the others, and is charged with the
/// memory that it takes.
pub proof fn law_element_added(m: MessageModel, tag: Tag, s: Seq<u8>, depth: nat, b: Budget)
    requires
        field_of(m.pool, m.index, tag.field_number) matches Some(fd) && wire_admits(
            fd.kind,
            tag.wire_type,
        ) && (fd.kind matches FieldKind::List(k) && !(tag.wire_type == WireType::LengthDelimited
            && packable(k)) && !(k matches SingularKind::Enum(e) && enum_is_closed(
            m.pool,
            e,
            fd.enum_type,
        ))),
    ensures
        ({
            let n = tag.field_number;
            let fd = field_of(m.pool, m.index, n)->Some_0;
            let k = fd.kind->List_0;
            let r = merge_field(m, tag, s, depth, b);
            let size = vstd::layout::size_of::<Value>();
            match take_element(m.pool, k, tag, s, depth, b) {
                Ok(v) => if v.2.elements < size {
                    r.1 == Err::<(Seq<u8>, Budget), DecodeError>(
                        DecodeError::ElementMemoryLimitExceeded,
                    ) && list_at(r.0.fields, n) == list_at(m.fields, n)
                } else {
                    &&& differs_in(
                        m,
                        n,
                        ValueModel::List(list_at(m.fields, n).push(v.0)),
                        r.0,
                    )
                    &&& r.1 matches Ok(p) && p.0 == v.1 && p.1.unknown == v.2.unknown
                        && p.1.elements + size == v.2.elements
                },
                Err(e) => r.1 == Err::<(Seq<u8>, Budget), DecodeError>(e) && list_at(
                    r.0.fields,
                    n,
                ) == list_at(m.fields, n),
            }
        }),
{
    let n = tag.field_number;
    let fd = field_of(m.pool, m.index, n)->Some_0;
    let k = fd.kind->List_0;
    lemma_differs(m, n, ValueModel::List(list_at(m.fields, n)));
    if let Ok(v) = take_element(m.pool, k, tag, s, depth, b) {
        lemma_differs(m, n, ValueModel::List(list_at(m.fields, n).push(v.0)));
    }
}

/// A number of a list of a closed enum is added behind the others where the enum
/// declares it, and kept as an unknown field where it does not.
pub proof fn law_number_added(m: MessageModel, tag: Tag, s: Seq<u8>, depth: nat, b: Budget)
    requires
        tag.wire_type == WireType::Varint,
        field_of(m.pool, m.index, tag.field_number) matches Some(fd) && (
        fd.kind matches FieldKind::List(SingularKind::Enum(e)) && enum_is_closed(
            m.pool,
            e,
            fd.enum_type,
        )),
    ensures
        ({
            let n = tag.field_number;
            let fd = field_of(m.pool, m.index, n)->Some_0;
            let e = fd.kind->List_0->Enum_0;
            let r = merge_field(m, tag, s, depth, b);
            let size = vstd::layout::size_of::<Value>();
            match take_int32(s) {
                Ok(p) => if !enum_knows(m.pool, e, fd.enum_type, p.0) {
                    keeps_unknown(
                        m,
                        UnknownEntry {
                            number: n,
                            data: UnknownPayload::Varint(mod64(p.0 as int) as u64),
                        },
                        p.1,
                        b,
                        r.0,
                        r.1,
                    )
                } else if b.elements < size {
                    r.0 == m && r.1 == Err::<(Seq<u8>, Budget), DecodeError>(
                        DecodeError::ElementMemoryLimitExceeded,
                    )
                } else {
                    &&& differs_in(
                        m,
                        n,
                        ValueModel::List(
                            list_at(m.fields, n).push(ValueModel::EnumNumber(p.0)),
                        ),
                        r.0,
                    )
                    &&& r.1 matches Ok(q) && q.0 == p.1 && q.1.unknown == b.unknown
                        && q.1.elements + size == b.elements
                },
                Err(x) => r.0 == m && r.1 == Err::<(Seq<u8>, Budget), DecodeError>(x),
            }
        }),
{
    let n = tag.field_number;
    if let Ok(p) = take_int32(s) {
        let l = list_at(m.fields, n);
        let x = ValueModel::EnumNumber(p.0);
        assert(l + seq![x] =~= l.push(x));
        lemma_differs(m, n, ValueModel::List(l.push(x)));
    }
}

/// A payload of packed elements is read from its front: an element at a time is
/// added behind the others and charged with the memory that it takes, up to the
/// end of the payload. A failure ends it, and what was added before stays.
pub proof fn law_packed_element(
    kind: SingularKind,
    n: u32,
    l: Seq<ValueModel>,
    s: Seq<u8>,
    b: Budget,
)
    requires
        packable(kind),
    ensures
        ({
            let r = merge_packed(kind, n, l, s, b);
            let size = vstd::layout::size_of::<Value>();
            let one = match kind {
                SingularKind::Scalar(t) => take_scalar(t, s),
                _ => match take_int32(s) {
                    Ok(p) => Ok((ValueModel::EnumNumber(p.0), p.1)),
                    Err(e) => Err(e),
                },
            };
            if s.len() == 0 {
                r.0 == l && r.1 == Ok::<Budget, DecodeError>(b)
            } else if b.elements < size {
                r.0 == l && r.1 == Err::<Budget, DecodeError>(
                    DecodeError::ElementMemoryLimitExceeded,
                )
            } else {
                match one {
                    Ok(p) => p.1.len() < s.len() ==> r == merge_packed(
                        kind,
                        n,
                        l.push(p.0),
                        p.1,
                        Budget { unknown: b.unknown, elements: (b.elements - size) as usize },
                    ),
                    Err(e) => r.0 == l && r.1 == Err::<Budget, DecodeError>(e),
                }
            }
        }),
{
}

/// Of a payload of packed numbers of a closed enum, those that it declares are
/// added behind the others, and the rest are kept as unknown fields.
pub proof fn law_packed_number(
    m: MessageModel,
    n: u32,
    e: EnumIndex,
    known: Seq<ValueModel>,
    s: Seq<u8>,
    b: Budget,
)
    ensures
        ({
            let r = merge_packed_closed(m, n, e, known, s, b);
            let size = vstd::layout::size_of::<Value>();
            if s.len() == 0 {
                r.0 == m && r.1 == Ok::<(Seq<ValueModel>, Budget), DecodeError>((known, b))
            } else {
                match take_int32(s) {
                    Err(x) => r.0 == m && r.1 == Err::<(Seq<ValueModel>, Budget), DecodeError>(x),
                    Ok(p) => p.1.len() < s.len() ==> if enum_knows(
                        m.pool,
                        e,
                        Some(EnumType::Closed),
                        p.0,
                    ) {
                        if b.elements < size {
                            r.0 == m && r.1 == Err::<(Seq<ValueModel>, Budget), DecodeError>(
                                DecodeError::ElementMemoryLimitExceeded,
                            )
                        } else {
                            r == merge_packed_closed(
                                m,
                                n,
                                e,
                                known.push(ValueModel::EnumNumber(p.0)),
                                p.1,
                                Budget {
                                    unknown: b.unknown,
                                    elements: (b.elements - size) as usize,
                                },
                            )
                        }
                    } else if b.unknown == 0 {
                        r.0 == m && r.1 == Err::<(Seq<ValueModel>, Budget), DecodeError>(
                            DecodeError::UnknownFieldLimitExceeded,
                        )
                    } else {
                        let x = UnknownEntry {
                            number: n,
                            data: UnknownPayload::Varint(mod64(p.0 as int) as u64),
                        };
                        r == merge_packed_closed(
                            MessageModel { unknown: m.unknown.push(x), ..m },
                            n,
                            e,
                            known,
                            p.1,
                            Budget { unknown: (b.unknown - 1) as usize, elements: b.elements },
                        )
                    },
                }
            }
        }),
{
}

/// A list of packable elements that comes as a payload is read packed, behind
/// what the list holds.
pub proof fn law_packed_list(m: MessageModel, tag: Tag, s: Seq<u8>, depth: nat, b: Budget)
    requires
        tag.wire_type == WireType::LengthDelimited,
        field_of(m.pool, m.index, tag.field_number) matches Some(fd) && (
        fd.kind matches FieldKind::List(k) && packable(k)),
    ensures
        ({
            let n = tag.field_number;
            let fd = field_of(m.pool, m.index, n)->Some_0;
            let k = fd.kind->List_0;
            let r = merge_field(m, tag, s, depth, b);
            match take_delimited(s) {
                Err(x) => r.1 == Err::<(Seq<u8>, Budget), DecodeError>(x) && list_at(
                    r.0.fields,
                    n,
                ) == list_at(m.fields, n),
                Ok(p) => if k matches SingularKind::Enum(e) && enum_is_closed(
                    m.pool,
                    e,
                    fd.enum_type,
                ) {
                    let q = merge_packed_closed(m, n, k->Enum_0, Seq::empty(), p.0, b);
                    match q.1 {
                        Err(x) => r.0 == q.0 && r.1 == Err::<(Seq<u8>, Budget), DecodeError>(x),
                        Ok(w) => {
                            &&& r.1 == Ok::<(Seq<u8>, Budget), DecodeError>((p.1, w.1))
                            &&& w.0.len() == 0 ==> r.0 == q.0
                            &&& w.0.len() > 0 ==> differs_in(
                                q.0,
                                n,
                                ValueModel::List(list_at(q.0.fields, n) + w.0),
                                r.0,
                            )
                        },
                    }
                } else {
                    let q = merge_packed(k, n, list_at(m.fields, n), p.0, b);
                    &&& differs_in(m, n, ValueModel::List(q.0), r.0)
                    &&& r.1 == match q.1 {
                        Ok(b1) => Ok::<(Seq<u8>, Budget), DecodeError>((p.1, b1)),
                        Err(x) => Err(x),
                    }
                },
            }
        }),
{
    let n = tag.field_number;
    let fd = field_of(m.pool, m.index, n)->Some_0;
    let k = fd.kind->List_0;
    lemma_differs(m, n, ValueModel::List(list_at(m.fields, n)));
    if let Ok(p) = take_delimited(s) {
        if let SingularKind::Enum(e) = k {
            let q = merge_packed_closed(m, n, e, Seq::empty(), p.0, b);
            if let Ok(w) = q.1 {
                lemma_differs(q.0, n, ValueModel::List(list_at(q.0.fields, n) + w.0));
            }
        }
        let q = merge_packed(k, n, list_at(m.fields, n), p.0, b);
        lemma_differs(m, n, ValueModel::List(q.0));
    }
}

/// An element is read as a scalar of its type, as an enum number, or as the
/// message that its bytes make of one with nothing set.
pub proof fn law_element_read(
    pool: DescriptorPool,
    kind: SingularKind,
    tag: Tag,
    s: Seq<u8>,
    depth: nat,
    b: Budget,
)
    ensures
        ({
            let r = take_element(pool, kind, tag, s, depth, b);
            match kind {
                SingularKind::Scalar(t) => match take_scalar(t, s) {
                    Ok(p) => r matches Ok(q) && q.0 == p.0 && q.1 == p.1 && q.2 == b,
                    Err(e) => r matches Err(x) && x == e,
                },
                SingularKind::Enum(_) => match take_int32(s) {
                    Ok(p) => r matches Ok(q) && q.0 == ValueModel::EnumNumber(p.0) && q.1 == p.1
                        && q.2 == b,
                    Err(e) => r matches Err(x) && x == e,
                },
                SingularKind::Message(i) => if depth == 0 {
                    r matches Err(x) && x == DecodeError::RecursionLimitExceeded
                } else {
                    let x = merge_body(empty_message(pool, i), tag, s, (depth - 1) as nat, b);
                    match x.1 {
                        Ok(p) => r matches Ok(q) && q.0 == ValueModel::Message(x.0) && q.1 == p.0
                            && q.2 == p.1,
                        Err(e) => r matches Err(y) && y == e,
                    }
                },
            }
        }),
{
}

// ── Maps ────────────────────────────────────────────────────────────────────

/// An entry is added behind those that are there. A key or a value that it does
/// not have is the default of its type.
pub proof fn law_entry_added(m: MessageModel, tag: Tag, s: Seq<u8>, depth: nat, b: Budget)
    requires
        tag.wire_type == WireType::LengthDelimited,
        field_of(m.pool, m.index, tag.field_number) matches Some(fd) && (
        fd.kind matches FieldKind::Mapping { key, value } && !(value matches SingularKind::Enum(e)
            && enum_is_closed(m.pool, e, fd.enum_type))),
    ensures
        ({
            let n = tag.field_number;
            let fd = field_of(m.pool, m.index, n)->Some_0;
            let key = fd.kind->Mapping_key;
            let value = fd.kind->Mapping_value;
            let r = merge_field(m, tag, s, depth, b);
            match take_delimited(s) {
                Ok(p) => match take_entry(m.pool, key, value, p.0, depth, b, None, None) {
                    Ok(q) => {
                        let k = if q.0 is Some {
                            q.0->Some_0
                        } else {
                            key_default(key)
                        };
                        let v = if q.1 is Some {
                            q.1->Some_0
                        } else {
                            element_default(value, m.pool)
                        };
                        let size = capped(
                            vstd::layout::size_of::<MapKey>() + vstd::layout::size_of::<Value>(),
                        );
                        if q.2.elements < size {
                            r.0 == m && r.1 == Err::<(Seq<u8>, Budget), DecodeError>(
                                DecodeError::ElementMemoryLimitExceeded,
                            )
                        } else {
                            &&& r.1 matches Ok(x) && x.0 == p.1 && x.1.unknown == q.2.unknown
                                && x.1.elements + size == q.2.elements
                            &&& differs_in(
                                m,
                                n,
                                ValueModel::Mapping(map_at(m.fields, n).push((k, v))),
                                r.0,
                            )
                        }
                    },
                    Err(e) => r.0 == m && r.1 == Err::<(Seq<u8>, Budget), DecodeError>(e),
                },
                Err(e) => r.0 == m && r.1 == Err::<(Seq<u8>, Budget), DecodeError>(e),
            }
        }),
{
    let n = tag.field_number;
    let fd = field_of(m.pool, m.index, n)->Some_0;
    let key = fd.kind->Mapping_key;
    let value = fd.kind->Mapping_value;
    if let Ok(p) = take_delimited(s) {
        if let Ok(q) = take_entry(m.pool, key, value, p.0, depth, b, None, None) {
            let k = if q.0 is Some {
                q.0->Some_0
            } else {
                key_default(key)
            };
            let v = if q.1 is Some {
                q.1->Some_0
            } else {
                element_default(value, m.pool)
            };
            lemma_differs(m, n, ValueModel::Mapping(map_at(m.fields, n).push((k, v))));
        }
    }
}

/// An entry of a closed enum is added where the last number that it holds is one
/// that the enum declares, or where it holds none: then the number is zero. Where
/// it is another, the entry is kept whole as an unknown field.
pub proof fn law_closed_entry(m: MessageModel, tag: Tag, s: Seq<u8>, depth: nat, b: Budget)
    requires
        tag.wire_type == WireType::LengthDelimited,
        field_of(m.pool, m.index, tag.field_number) matches Some(fd) && (
        fd.kind matches FieldKind::Mapping { key, value } && (value matches SingularKind::Enum(e)
            && enum_is_closed(m.pool, e, fd.enum_type))),
    ensures
        ({
            let n = tag.field_number;
            let fd = field_of(m.pool, m.index, n)->Some_0;
            let key = fd.kind->Mapping_key;
            let e = fd.kind->Mapping_value->Enum_0;
            let r = merge_field(m, tag, s, depth, b);
            let size = capped(
                vstd::layout::size_of::<MapKey>() + vstd::layout::size_of::<Value>(),
            );
            match take_delimited(s) {
                Ok(p) => match take_closed_entry(
                    m.pool,
                    key,
                    e,
                    p.0,
                    depth,
                    None,
                    ClosedValue::Absent,
                ) {
                    Ok(q) => {
                        let k = if q.0 is Some {
                            q.0->Some_0
                        } else {
                            key_default(key)
                        };
                        let v: i32 = if q.1 is Known {
                            q.1->Known_0
                        } else {
                            0
                        };
                        if q.1 is Unknown {
                            keeps_unknown(
                                m,
                                UnknownEntry {
                                    number: n,
                                    data: UnknownPayload::LengthDelimited(p.0),
                                },
                                p.1,
                                b,
                                r.0,
                                r.1,
                            )
                        } else if b.elements < size {
                            r.0 == m && r.1 == Err::<(Seq<u8>, Budget), DecodeError>(
                                DecodeError::ElementMemoryLimitExceeded,
                            )
                        } else {
                            &&& r.1 matches Ok(x) && x.0 == p.1 && x.1.unknown == b.unknown
                                && x.1.elements + size == b.elements
                            &&& differs_in(
                                m,
                                n,
                                ValueModel::Mapping(
                                    map_at(m.fields, n).push((k, ValueModel::EnumNumber(v))),
                                ),
                                r.0,
                            )
                        }
                    },
                    Err(x) => r.0 == m && r.1 == Err::<(Seq<u8>, Budget), DecodeError>(x),
                },
                Err(x) => r.0 == m && r.1 == Err::<(Seq<u8>, Budget), DecodeError>(x),
            }
        }),
{
    let n = tag.field_number;
    let fd = field_of(m.pool, m.index, n)->Some_0;
    let key = fd.kind->Mapping_key;
    let e = fd.kind->Mapping_value->Enum_0;
    if let Ok(p) = take_delimited(s) {
        if let Ok(q) = take_closed_entry(
            m.pool,
            key,
            e,
            p.0,
            depth,
            None,
            ClosedValue::Absent,
        ) {
            let k = if q.0 is Some {
                q.0->Some_0
            } else {
                key_default(key)
            };
            let v: i32 = if q.1 is Known {
                q.1->Known_0
            } else {
                0
            };
            lemma_differs(
                m,
                n,
                ValueModel::Mapping(map_at(m.fields, n).push((k, ValueModel::EnumNumber(v)))),
            );
        }
    }
}

/// Inside an entry field 1 is the key and field 2 the value, and the last of each
/// counts; other fields are passed over.
pub proof fn law_entry_read(
    pool: DescriptorPool,
    key: ScalarType,
    value: SingularKind,
    s: Seq<u8>,
    depth: nat,
    b: Budget,
    k: Option<KeyModel>,
    v: Option<ValueModel>,
)
    ensures
        ({
            let r = take_entry(pool, key, value, s, depth, b, k, v);
            match take_tag(s) {
                Err(e) => if s.len() == 0 {
                    r matches Ok(x) && x.0 == k && x.1 == v && x.2 == b
                } else {
                    r matches Err(x) && x == e
                },
                Ok(t) => if t.0.field_number == 1 {
                    match take_key(key, t.0, t.1) {
                        Ok(p) => p.1.len() < s.len() ==> r == take_entry(
                            pool,
                            key,
                            value,
                            p.1,
                            depth,
                            b,
                            Some(p.0),
                            v,
                        ),
                        Err(e) => r matches Err(x) && x == e,
                    }
                } else if t.0.field_number == 2 {
                    match take_element(pool, value, t.0, t.1, depth, b) {
                        Ok(p) => p.1.len() < s.len() ==> r == take_entry(
                            pool,
                            key,
                            value,
                            p.1,
                            depth,
                            p.2,
                            k,
                            Some(p.0),
                        ),
                        Err(e) => r matches Err(x) && x == e,
                    }
                } else {
                    match skip_payload(t.0, t.1, depth) {
                        Ok(rest) => rest.len() < s.len() ==> r == take_entry(
                            pool,
                            key,
                            value,
                            rest,
                            depth,
                            b,
                            k,
                            v,
                        ),
                        Err(e) => r matches Err(x) && x == e,
                    }
                },
            }
        }),
{
    lemma_take_tag(s);
}

/// So inside an entry of a closed enum.
pub proof fn law_closed_entry_read(
    pool: DescriptorPool,
    key: ScalarType,
    e: EnumIndex,
    s: Seq<u8>,
    depth: nat,
    k: Option<KeyModel>,
    v: ClosedValue,
)
    ensures
        ({
            let r = take_closed_entry(pool, key, e, s, depth, k, v);
            match take_tag(s) {
                Err(x) => if s.len() == 0 {
                    r matches Ok(y) && y.0 == k && y.1 == v
                } else {
                    r matches Err(y) && y == x
                },
                Ok(t) => if t.0.field_number == 1 {
                    match take_key(key, t.0, t.1) {
                        Ok(p) => p.1.len() < s.len() ==> r == take_closed_entry(
                            pool,
                            key,
                            e,
                            p.1,
                            depth,
                            Some(p.0),
                            v,
                        ),
                        Err(x) => r matches Err(y) && y == x,
                    }
                } else if t.0.field_number == 2 {
                    match take_int32(t.1) {
                        Ok(p) => p.1.len() < s.len() ==> exists|w: ClosedValue|
                            r == #[trigger] take_closed_entry(pool, key, e, p.1, depth, k, w)
                                && if exists|i: int|
                                0 <= i < pool.enum_seq()[e.0 as int].values@.len() && (
                                #[trigger] pool.enum_seq()[e.0 as int].values@[i]).number == p.0 {
                                w == ClosedValue::Known(p.0)
                            } else {
                                w == ClosedValue::Unknown
                            },
                        Err(x) => r matches Err(y) && y == x,
                    }
                } else {
                    match skip_payload(t.0, t.1, depth) {
                        Ok(rest) => rest.len() < s.len() ==> r == take_closed_entry(
                            pool,
                            key,
                            e,
                            rest,
                            depth,
                            k,
                            v,
                        ),
                        Err(x) => r matches Err(y) && y == x,
                    }
                },
            }
        }),
{
    lemma_take_tag(s);
    if let Ok(t) = take_tag(s) {
        if t.0.field_number == 2 {
            if let Ok(p) = take_int32(t.1) {
                if enum_knows(pool, e, Some(EnumType::Closed), p.0) {
                    let w = ClosedValue::Known(p.0);
                    let x = take_closed_entry(pool, key, e, p.1, depth, k, w);
                } else {
                    let w = ClosedValue::Unknown;
                    let x = take_closed_entry(pool, key, e, p.1, depth, k, w);
                }
            }
        }
    }
}

/// The value of the last entry that has the key.
pub open spec fn last_under(s: Seq<(KeyModel, ValueModel)>, k: KeyModel) -> Option<ValueModel>
    decreases s.len(),
{
    if s.len() == 0 {
        None
    } else if s.last().0 == k {
        Some(s.last().1)
    } else {
        last_under(s.drop_last(), k)
    }
}

proof fn lemma_put_under(
    s: Seq<(KeyModel, ValueModel)>,
    k: KeyModel,
    v: ValueModel,
    l: KeyModel,
)
    requires
        entries_sorted(s),
    ensures
        last_under(entry_put(s, k, v), l) == if l == k {
            Some(v)
        } else {
            last_under(s, l)
        },
    decreases s.len(),
{
    if s.len() == 0 || key_before(s.last().0, k) {
        assert(s.push((k, v)).drop_last() =~= s);
    } else {
        let t = s.drop_last();
        if s.last().0 == k {
            assert(t.push((k, v)).drop_last() =~= t);
        } else {
            lemma_put_under(t, k, v, l);
            assert(entry_put(t, k, v).push(s.last()).drop_last() =~= entry_put(t, k, v));
        }
    }
}

/// Putting entries in order leaves each key with the last value that was given
/// for it, in one entry, and the keys increase.
pub proof fn law_last_entry(s: Seq<(KeyModel, ValueModel)>, k: KeyModel)
    ensures
        last_under(normal_entries(s), k) == last_under(s, k),
        entries_sorted(normal_entries(s)),
        forall|i: int, j: int|
            0 <= i < j < normal_entries(s).len() ==> (#[trigger] normal_entries(s)[i]).0 != (
            #[trigger] normal_entries(s)[j]).0,
    decreases s.len(),
{
    lemma_normal_entries_sorted(s);
    let r = normal_entries(s);
    if s.len() > 0 {
        law_last_entry(s.drop_last(), k);
        lemma_put_under(normal_entries(s.drop_last()), s.last().0, s.last().1, k);
    }
    assert forall|i: int, j: int| 0 <= i < j < r.len() implies (#[trigger] r[i]).0 != (
    #[trigger] r[j]).0 by {
        lemma_key_order_total(r[i].0, r[j].0);
    }
}

/// The order of keys: numbers by value, `false` in front of `true`, strings by
/// the first byte of their UTF-8 in which they differ, a prefix in front. Keys of
/// different types stand in the order of the types: truth values, signed numbers,
/// unsigned numbers, strings, the narrower in front.
pub proof fn law_key_order(a: KeyModel, b: KeyModel)
    ensures
        match (a, b) {
            (KeyModel::Bool(x), KeyModel::Bool(y)) => key_before(a, b) <==> !x && y,
            (KeyModel::I32(x), KeyModel::I32(y)) => key_before(a, b) <==> x < y,
            (KeyModel::I64(x), KeyModel::I64(y)) => key_before(a, b) <==> x < y,
            (KeyModel::U32(x), KeyModel::U32(y)) => key_before(a, b) <==> x < y,
            (KeyModel::U64(x), KeyModel::U64(y)) => key_before(a, b) <==> x < y,
            (KeyModel::Text(x), KeyModel::Text(y)) => key_before(a, b) <==> spelled_before(
                vstd::utf8::encode_utf8(x),
                vstd::utf8::encode_utf8(y),
            ),
            (KeyModel::Bool(_), _) => key_before(a, b),
            (_, KeyModel::Bool(_)) => !key_before(a, b),
            (KeyModel::I32(_), _) => key_before(a, b),
            (_, KeyModel::I32(_)) => !key_before(a, b),
            (KeyModel::I64(_), _) => key_before(a, b),
            (_, KeyModel::I64(_)) => !key_before(a, b),
            (KeyModel::U32(_), _) => key_before(a, b),
            (_, KeyModel::U32(_)) => !key_before(a, b),
            (KeyModel::U64(_), _) => key_before(a, b),
            (_, KeyModel::U64(_)) => !key_before(a, b),
        },
{
    if let (KeyModel::Text(x), KeyModel::Text(y)) = (a, b) {
        lemma_spelled(vstd::utf8::encode_utf8(x), vstd::utf8::encode_utf8(y));
    }
}

/// The strings agree up to a place where the first has ended or has the smaller
/// byte.
pub open spec fn spelled_before(a: Seq<u8>, b: Seq<u8>) -> bool {
    exists|n: int|
        0 <= n <= a.len() && n < b.len() && #[trigger] a.take(n) == b.take(n) && (n == a.len()
            || a[n] < b[n])
}

proof fn lemma_spelled(a: Seq<u8>, b: Seq<u8>)
    ensures
        bytes_before(a, b) <==> spelled_before(a, b),
    decreases a.len(),
{
    if b.len() > 0 {
        if a.len() == 0 {
            assert(a.take(0) == b.take(0));
        } else if a[0] == b[0] {
            let c = a.skip(1);
            let d = b.skip(1);
            lemma_spelled(c, d);
            if spelled_before(c, d) {
                let n = choose|n: int|
                    0 <= n <= c.len() && n < d.len() && #[trigger] c.take(n) == d.take(n) && (n
                        == c.len() || c[n] < d[n]);
                assert(a.take(n + 1) =~= seq![a[0]] + c.take(n));
                assert(b.take(n + 1) =~= seq![b[0]] + d.take(n));
                assert(a.take(n + 1) == b.take(n + 1));
            }
            if spelled_before(a, b) {
                let n = choose|n: int|
                    0 <= n <= a.len() && n < b.len() && #[trigger] a.take(n) == b.take(n) && (n
                        == a.len() || a[n] < b[n]);
                assert(n > 0);
                assert(c.take(n - 1) =~= a.take(n).skip(1));
                assert(d.take(n - 1) =~= b.take(n).skip(1));
                assert(c.take(n - 1) == d.take(n - 1));
            }
        } else {
            assert(a.take(0) =~= b.take(0));
            if spelled_before(a, b) {
                let n = choose|n: int|
                    0 <= n <= a.len() && n < b.len() && #[trigger] a.take(n) == b.take(n) && (n
                        == a.len() || a[n] < b[n]);
                if n > 0 {
                    assert(a.take(n)[0] == b.take(n)[0]);
                }
            }
        }
    }
}

// ── Whole messages ──────────────────────────────────────────────────────────

/// After merging, every map of the message is in order; the other values are as
/// they were merged.
pub proof fn law_merged_in_order(m: MessageModel, n: u32)
    ensures
        field_get(normal_message(m).fields, n) == match field_get(m.fields, n) {
            Some(ValueModel::Mapping(e)) => Some(ValueModel::Mapping(normal_entries(e))),
            other => other,
        },
        normal_message(m).unknown == m.unknown,
        normal_message(m).pool == m.pool,
        normal_message(m).index == m.index,
    decreases m.fields.len(),
{
    let r = normal_message(m);
    if m.fields.len() > 0 {
        let t = MessageModel { fields: m.fields.drop_last(), ..m };
        law_merged_in_order(t, n);
        assert(r.fields.drop_last() =~= normal_message(t).fields);
    }
}

/// Bytes over the size limit are refused unseen. Others are merged with the
/// levels and the budget that the limits say, and then the maps are put in order.
/// Decoding is merging into a message with nothing set, if that succeeds.
pub proof fn law_limits(
    pool: DescriptorPool,
    index: MessageIndex,
    m: MessageModel,
    s: Seq<u8>,
    o: DecodeOptions,
)
    ensures
        s.len() > o.max_message_size ==> merged(m, s, o) == (
            m,
            Err::<(), DecodeError>(DecodeError::MessageTooLarge),
        ),
        s.len() <= o.max_message_size ==> {
            let b = Budget { unknown: o.unknown_field_limit, elements: o.element_memory_limit };
            let r = merge_fields(m, s, None, o.recursion_limit as nat, b);
            &&& merged(m, s, o).0 == normal_message(r.0)
            &&& r.1 is Ok <==> merged(m, s, o).1 is Ok
            &&& r.1 matches Err(e) ==> merged(m, s, o).1 == Err::<(), DecodeError>(e)
        },
        match merged(empty_message(pool, index), s, o).1 {
            Ok(_) => decoded(pool, index, s, o) == Ok::<MessageModel, DecodeError>(
                merged(empty_message(pool, index), s, o).0,
            ),
            Err(e) => decoded(pool, index, s, o) == Err::<MessageModel, DecodeError>(e),
        },
        default_options().recursion_limit == 100,
        default_options().max_message_size == 0x7fff_ffff,
        default_options().unknown_field_limit == 1_000_000,
        default_options().element_memory_limit == 33_554_432,
{
}

/// Decoding nested bytes takes the levels that are left, and the default limits
/// for the rest.
pub proof fn law_depth_options(depth: u32)
    ensures
        depth_options(depth).recursion_limit == depth,
        depth_options(depth).max_message_size == default_options().max_message_size,
        depth_options(depth).unknown_field_limit == default_options().unknown_field_limit,
        depth_options(depth).element_memory_limit == default_options().element_memory_limit,
{
}

} // verus!
