//! Bytes in parts. Reading looks neither at what stands behind the bytes that
//! it takes nor at limits that it does not reach; so bytes can be merged in
//! parts, and the elements of a list can come packed or one by one.
use vstd::prelude::*;
use crate::decode::{decoded, full_budget, merged, DecodeOptions};
use crate::descriptor::{
    enum_is_closed, enum_knows, field_of, DescriptorPool, EnumIndex, EnumType, FieldDescriptor,
    FieldKind, MessageIndex, ScalarType, SingularKind,
};
use crate::map::{lemma_normal_entries_id, lemma_normal_entries_sorted, normal_entries};
use crate::merge::{
    add_entry, add_known, charge, clear_members, clear_oneof, element_cost, element_default,
    entry_cost, keep_number, keep_unknown, merge_body, merge_closed_list, merge_closed_map,
    merge_existing, merge_field, merge_fields, merge_list, merge_map, merge_packed,
    merge_packed_closed, merge_unknown, normal_fields, normal_message, normal_value, or_default,
    take_closed_entry, take_element, take_entry, take_packed, with_unknown, Budget, ClosedValue,
};
use crate::scalar::{
    key_default, lemma_take_scalar, packable, take_int32, take_key, take_scalar, wire_admits,
};
use crate::unknown::{
    lemma_take_payload, spend, take_group, take_payload, UnknownEntry, UnknownPayload,
};
use crate::value::{
    empty_message, field_del, field_get, field_insert, field_replace, lemma_put_get, lemma_put_put,
    list_at, map_at, with_field, KeyModel, MessageModel, ValueModel,
};
use crate::wire::{
    delimited_bytes, lemma_take_delimited, lemma_take_delimited_bytes, lemma_take_tag,
    take_delimited, take_fixed, take_tag, take_varint, varint_from, DecodeError, Tag, WireType,
};

verus! {

// ── More bytes behind ───────────────────────────────────────────────────────

proof fn lemma_varint_from_more(s: Seq<u8>, k: nat, t: Seq<u8>)
    ensures
        varint_from(s, k) matches Ok(p) ==> varint_from(s + t, k) == Ok::<
            (nat, Seq<u8>),
            DecodeError,
        >((p.0, p.1 + t)),
    decreases s.len(),
{
    if s.len() > 0 {
        assert((s + t).skip(1) =~= s.skip(1) + t);
        assert((s + t)[0] == s[0]);
        if k < 9 && s[0] >= 128 {
            lemma_varint_from_more(s.skip(1), k + 1, t);
        }
    }
}

proof fn lemma_varint_more(s: Seq<u8>, t: Seq<u8>)
    ensures
        take_varint(s) matches Ok(p) ==> take_varint(s + t) == Ok::<(u64, Seq<u8>), DecodeError>(
            (p.0, p.1 + t),
        ),
{
    lemma_varint_from_more(s, 0, t);
}

proof fn lemma_tag_more(s: Seq<u8>, t: Seq<u8>)
    ensures
        take_tag(s) matches Ok(p) ==> take_tag(s + t) == Ok::<(Tag, Seq<u8>), DecodeError>(
            (p.0, p.1 + t),
        ),
{
    lemma_varint_more(s, t);
}

proof fn lemma_fixed_more(s: Seq<u8>, n: nat, t: Seq<u8>)
    ensures
        take_fixed(s, n) matches Ok(p) ==> take_fixed(s + t, n) == Ok::<
            (nat, Seq<u8>),
            DecodeError,
        >((p.0, p.1 + t)),
{
    if n <= s.len() {
        assert((s + t).take(n as int) =~= s.take(n as int));
        assert((s + t).skip(n as int) =~= s.skip(n as int) + t);
    }
}

proof fn lemma_delimited_more(s: Seq<u8>, t: Seq<u8>)
    ensures
        take_delimited(s) matches Ok(p) ==> take_delimited(s + t) == Ok::<
            (Seq<u8>, Seq<u8>),
            DecodeError,
        >((p.0, p.1 + t)),
{
    lemma_varint_more(s, t);
    if let Ok(p) = take_varint(s) {
        if p.0 <= p.1.len() {
            assert((p.1 + t).take(p.0 as int) =~= p.1.take(p.0 as int));
            assert((p.1 + t).skip(p.0 as int) =~= p.1.skip(p.0 as int) + t);
        }
    }
}

proof fn lemma_scalar_more(k: ScalarType, s: Seq<u8>, t: Seq<u8>)
    ensures
        take_scalar(k, s) matches Ok(p) ==> take_scalar(k, s + t) == Ok::<
            (ValueModel, Seq<u8>),
            DecodeError,
        >((p.0, p.1 + t)),
        take_int32(s) matches Ok(p) ==> take_int32(s + t) == Ok::<(i32, Seq<u8>), DecodeError>(
            (p.0, p.1 + t),
        ),
{
    lemma_varint_more(s, t);
    lemma_fixed_more(s, 4, t);
    lemma_fixed_more(s, 8, t);
    lemma_delimited_more(s, t);
}

// ── More bytes behind, and wider limits ─────────────────────────────────────

/// A budget with more in it.
pub open spec fn wider(b: Budget, x: Budget) -> Budget {
    Budget { unknown: (b.unknown + x.unknown) as usize, elements: (b.elements + x.elements) as usize }
}

/// The wider budget is one.
pub open spec fn fits(b: Budget, x: Budget) -> bool {
    b.unknown + x.unknown <= usize::MAX && b.elements + x.elements <= usize::MAX
}

/// The budget holds no more than the other.
pub open spec fn within(b: Budget, x: Budget) -> bool {
    b.unknown <= x.unknown && b.elements <= x.elements
}

spec fn more_slots(slots: Option<nat>, x: nat) -> Option<nat> {
    match slots {
        Some(n) => Some(n + x),
        None => None,
    }
}

proof fn lemma_payload_more(
    tag: Tag,
    s: Seq<u8>,
    depth: nat,
    slots: Option<nat>,
    t: Seq<u8>,
    x: nat,
)
    ensures
        take_payload(tag, s, depth, slots) matches Ok(p) ==> take_payload(
            tag,
            s + t,
            depth,
            more_slots(slots, x),
        ) is Ok && take_payload(tag, s + t, depth, more_slots(slots, x))->Ok_0 == (
            p.0,
            p.1 + t,
            more_slots(p.2, x),
        ),
    decreases depth, s.len(), 0nat,
{
    if take_payload(tag, s, depth, slots) is Ok {
        lemma_varint_more(s, t);
        lemma_fixed_more(s, 4, t);
        lemma_fixed_more(s, 8, t);
        lemma_delimited_more(s, t);
        assert(spend(more_slots(slots, x)) == more_slots(spend(slots), x));
        if tag.wire_type == WireType::StartGroup {
            lemma_group_more(tag.field_number, s, (depth - 1) as nat, spend(slots), t, x);
        }
    }
}

proof fn lemma_group_more(
    number: u32,
    s: Seq<u8>,
    depth: nat,
    slots: Option<nat>,
    t: Seq<u8>,
    x: nat,
)
    ensures
        take_group(number, s, depth, slots) matches Ok(p) ==> take_group(
            number,
            s + t,
            depth,
            more_slots(slots, x),
        ) is Ok && take_group(number, s + t, depth, more_slots(slots, x))->Ok_0 == (
            p.0,
            p.1 + t,
            more_slots(p.2, x),
        ),
    decreases depth, s.len(), 1nat,
{
    lemma_take_tag(s);
    lemma_tag_more(s, t);
    if take_group(number, s, depth, slots) is Ok {
        let g = take_tag(s)->Ok_0;
        if g.0.wire_type != WireType::EndGroup {
            lemma_payload_more(g.0, g.1, depth, slots, t, x);
            let p = take_payload(g.0, g.1, depth, slots)->Ok_0;
            lemma_group_more(number, p.1, depth, p.2, t, x);
        }
    }
}

proof fn lemma_packed_wider(
    kind: SingularKind,
    number: u32,
    l: Seq<ValueModel>,
    s: Seq<u8>,
    b: Budget,
    x: Budget,
)
    requires
        fits(b, x),
    ensures
        merge_packed(kind, number, l, s, b).1 matches Ok(b1) ==> within(b1, b) && merge_packed(
            kind,
            number,
            l,
            s,
            wider(b, x),
        ).1 == Ok::<Budget, DecodeError>(wider(b1, x)) && merge_packed(
            kind,
            number,
            l,
            s,
            wider(b, x),
        ).0 == merge_packed(kind, number, l, s, b).0,
    decreases s.len(),
{
    if s.len() > 0 && merge_packed(kind, number, l, s, b).1 is Ok {
        let b1 = charge(b, element_cost())->Ok_0;
        let p = take_packed(kind, number, s)->Ok_0;
        assert(charge(wider(b, x), element_cost()) == Ok::<Budget, DecodeError>(wider(b1, x)));
        lemma_packed_wider(kind, number, l.push(p.0), p.1, b1, x);
    }
}

proof fn lemma_packed_closed_wider(
    m: MessageModel,
    number: u32,
    e: EnumIndex,
    known: Seq<ValueModel>,
    s: Seq<u8>,
    b: Budget,
    x: Budget,
)
    requires
        fits(b, x),
    ensures
        merge_packed_closed(m, number, e, known, s, b).1 matches Ok(r) ==> within(r.1, b)
            && merge_packed_closed(m, number, e, known, s, wider(b, x)).1 == Ok::<
            (Seq<ValueModel>, Budget),
            DecodeError,
        >((r.0, wider(r.1, x))) && merge_packed_closed(m, number, e, known, s, wider(b, x)).0
            == merge_packed_closed(m, number, e, known, s, b).0,
    decreases s.len(),
{
    if s.len() > 0 && merge_packed_closed(m, number, e, known, s, b).1 is Ok {
        let p = take_int32(s)->Ok_0;
        if enum_knows(m.pool, e, Some(EnumType::Closed), p.0) {
            let b1 = charge(b, element_cost())->Ok_0;
            assert(charge(wider(b, x), element_cost()) == Ok::<Budget, DecodeError>(wider(b1, x)));
            lemma_packed_closed_wider(
                m,
                number,
                e,
                known.push(ValueModel::EnumNumber(p.0)),
                p.1,
                b1,
                x,
            );
        } else {
            let k = keep_number(m, number, p.0, p.1, b);
            let w = keep_number(m, number, p.0, p.1, wider(b, x));
            assert(w.0 == k.0 && w.1->Ok_0.1 == wider(k.1->Ok_0.1, x));
            lemma_packed_closed_wider(k.0, number, e, known, p.1, k.1->Ok_0.1, x);
        }
    }
}

/// What a step leaves, with more bytes behind and a wider budget.
spec fn more_left(l: (Seq<u8>, Budget), t: Seq<u8>, x: Budget) -> (Seq<u8>, Budget) {
    (l.0 + t, wider(l.1, x))
}

/// The step `w` does what the step `r` does, if that succeeds; and `r` takes
/// from its budget `b`, and adds nothing to it.
spec fn agrees(
    r: (MessageModel, Result<(Seq<u8>, Budget), DecodeError>),
    w: (MessageModel, Result<(Seq<u8>, Budget), DecodeError>),
    b: Budget,
    t: Seq<u8>,
    x: Budget,
) -> bool {
    r.1 matches Ok(l) ==> within(l.1, b) && w.0 == r.0 && w.1 == Ok::<
        (Seq<u8>, Budget),
        DecodeError,
    >(more_left(l, t, x))
}

proof fn lemma_closed_list_more(
    m: MessageModel,
    n: u32,
    e: EnumIndex,
    tag: Tag,
    s: Seq<u8>,
    b: Budget,
    t: Seq<u8>,
    x: Budget,
)
    requires
        fits(b, x),
    ensures
        agrees(
            merge_closed_list(m, n, e, tag, s, b),
            merge_closed_list(m, n, e, tag, s + t, wider(b, x)),
            b,
            t,
            x,
        ),
{
    lemma_delimited_more(s, t);
    lemma_scalar_more(ScalarType::Int32, s, t);
    if merge_closed_list(m, n, e, tag, s, b).1 is Ok {
        if tag.wire_type == WireType::LengthDelimited {
            let p = take_delimited(s)->Ok_0;
            lemma_packed_closed_wider(m, n, e, Seq::empty(), p.0, b, x);
        } else {
            let p = take_int32(s)->Ok_0;
            if enum_knows(m.pool, e, Some(EnumType::Closed), p.0) {
                let b1 = charge(b, element_cost())->Ok_0;
                assert(charge(wider(b, x), element_cost()) == Ok::<Budget, DecodeError>(
                    wider(b1, x),
                ));
            }
        }
    }
}

proof fn lemma_closed_map_more(
    m: MessageModel,
    n: u32,
    key: ScalarType,
    e: EnumIndex,
    s: Seq<u8>,
    depth: nat,
    b: Budget,
    t: Seq<u8>,
    x: Budget,
)
    requires
        fits(b, x),
    ensures
        agrees(
            merge_closed_map(m, n, key, e, s, depth, b),
            merge_closed_map(m, n, key, e, s + t, depth, wider(b, x)),
            b,
            t,
            x,
        ),
{
    lemma_delimited_more(s, t);
    if merge_closed_map(m, n, key, e, s, depth, b).1 is Ok {
        if let Ok(b1) = charge(b, entry_cost()) {
            assert(charge(wider(b, x), entry_cost()) == Ok::<Budget, DecodeError>(wider(b1, x)));
        }
    }
}

proof fn lemma_fields_more(
    m: MessageModel,
    s: Seq<u8>,
    number: u32,
    depth: nat,
    b: Budget,
    t: Seq<u8>,
    x: Budget,
)
    requires
        fits(b, x),
    ensures
        agrees(
            merge_fields(m, s, Some(number), depth, b),
            merge_fields(m, s + t, Some(number), depth, wider(b, x)),
            b,
            t,
            x,
        ),
    decreases depth, s.len(), 4nat,
{
    lemma_take_tag(s);
    lemma_tag_more(s, t);
    if merge_fields(m, s, Some(number), depth, b).1 is Ok {
        let g = take_tag(s)->Ok_0;
        if g.0.wire_type != WireType::EndGroup {
            lemma_field_more(m, g.0, g.1, depth, b, t, x);
            let r = merge_field(m, g.0, g.1, depth, b);
            let l = r.1->Ok_0;
            lemma_fields_more(r.0, l.0, number, depth, l.1, t, x);
        }
    }
}

/// Without more bytes behind.
proof fn lemma_fields_wider(
    m: MessageModel,
    s: Seq<u8>,
    depth: nat,
    b: Budget,
    x: Budget,
)
    requires
        fits(b, x),
    ensures
        agrees(
            merge_fields(m, s, None, depth, b),
            merge_fields(m, s, None, depth, wider(b, x)),
            b,
            Seq::empty(),
            x,
        ),
    decreases depth, s.len(), 4nat,
{
    lemma_take_tag(s);
    assert(s + Seq::empty() =~= s);
    if s.len() > 0 && merge_fields(m, s, None, depth, b).1 is Ok {
        let g = take_tag(s)->Ok_0;
        assert(g.1 + Seq::empty() =~= g.1);
        lemma_field_more(m, g.0, g.1, depth, b, Seq::empty(), x);
        let r = merge_field(m, g.0, g.1, depth, b);
        let l = r.1->Ok_0;
        assert(l.0 + Seq::empty() =~= l.0);
        lemma_fields_wider(r.0, l.0, depth, l.1, x);
    }
}

proof fn lemma_body_more(
    m: MessageModel,
    tag: Tag,
    s: Seq<u8>,
    depth: nat,
    b: Budget,
    t: Seq<u8>,
    x: Budget,
)
    requires
        fits(b, x),
    ensures
        agrees(
            merge_body(m, tag, s, depth, b),
            merge_body(m, tag, s + t, depth, wider(b, x)),
            b,
            t,
            x,
        ),
    decreases depth, s.len(), 6nat,
{
    lemma_take_delimited(s);
    lemma_delimited_more(s, t);
    if merge_body(m, tag, s, depth, b).1 is Ok {
        if tag.wire_type == WireType::LengthDelimited {
            let p = take_delimited(s)->Ok_0;
            lemma_fields_wider(m, p.0, depth, b, x);
        } else {
            lemma_fields_more(m, s, tag.field_number, depth, b, t, x);
        }
    }
}

proof fn lemma_element_more(
    pool: DescriptorPool,
    kind: SingularKind,
    tag: Tag,
    s: Seq<u8>,
    depth: nat,
    b: Budget,
    t: Seq<u8>,
    x: Budget,
)
    requires
        fits(b, x),
    ensures
        take_element(pool, kind, tag, s, depth, b) matches Ok(r) ==> within(r.2, b) && take_element(
            pool,
            kind,
            tag,
            s + t,
            depth,
            wider(b, x),
        ) is Ok && take_element(pool, kind, tag, s + t, depth, wider(b, x))->Ok_0 == (
            r.0,
            r.1 + t,
            wider(r.2, x),
        ),
    decreases depth, s.len(), 1nat,
{
    match kind {
        SingularKind::Scalar(k) => {
            lemma_scalar_more(k, s, t);
        },
        SingularKind::Enum(_) => {
            lemma_scalar_more(ScalarType::Int32, s, t);
        },
        SingularKind::Message(i) => {
            if depth > 0 {
                lemma_body_more(empty_message(pool, i), tag, s, (depth - 1) as nat, b, t, x);
            }
        },
    }
}

proof fn lemma_entry_wider(
    pool: DescriptorPool,
    key_type: ScalarType,
    kind: SingularKind,
    s: Seq<u8>,
    depth: nat,
    b: Budget,
    key: Option<KeyModel>,
    value: Option<ValueModel>,
    x: Budget,
)
    requires
        fits(b, x),
    ensures
        take_entry(pool, key_type, kind, s, depth, b, key, value) matches Ok(r) ==> within(r.2, b)
            && take_entry(pool, key_type, kind, s, depth, wider(b, x), key, value) is Ok
            && take_entry(pool, key_type, kind, s, depth, wider(b, x), key, value)->Ok_0 == (
            r.0,
            r.1,
            wider(r.2, x),
        ),
    decreases depth, s.len(), 2nat,
{
    lemma_take_tag(s);
    if s.len() > 0 && take_entry(pool, key_type, kind, s, depth, b, key, value) is Ok {
        let g = take_tag(s)->Ok_0;
        if g.0.field_number == 1 {
            let p = take_key(key_type, g.0, g.1)->Ok_0;
            lemma_entry_wider(pool, key_type, kind, p.1, depth, b, Some(p.0), value, x);
        } else if g.0.field_number == 2 {
            lemma_element_more(pool, kind, g.0, g.1, depth, b, Seq::empty(), x);
            let r = take_element(pool, kind, g.0, g.1, depth, b)->Ok_0;
            assert(g.1 + Seq::empty() =~= g.1);
            assert(r.1 + Seq::empty() =~= r.1);
            lemma_entry_wider(pool, key_type, kind, r.1, depth, r.2, key, Some(r.0), x);
        } else {
            let p = take_payload(g.0, g.1, depth, None)->Ok_0;
            lemma_entry_wider(pool, key_type, kind, p.1, depth, b, key, value, x);
        }
    }
}

proof fn lemma_list_more(
    m: MessageModel,
    n: u32,
    kind: SingularKind,
    enum_type: Option<EnumType>,
    tag: Tag,
    s: Seq<u8>,
    depth: nat,
    b: Budget,
    t: Seq<u8>,
    x: Budget,
)
    requires
        fits(b, x),
    ensures
        agrees(
            merge_list(m, n, kind, enum_type, tag, s, depth, b),
            merge_list(m, n, kind, enum_type, tag, s + t, depth, wider(b, x)),
            b,
            t,
            x,
        ),
    decreases depth, s.len(), 2nat,
{
    if kind matches SingularKind::Enum(e) && enum_is_closed(m.pool, e, enum_type) {
        lemma_closed_list_more(m, n, kind->Enum_0, tag, s, b, t, x);
    } else if merge_list(m, n, kind, enum_type, tag, s, depth, b).1 is Ok {
        let l = list_at(m.fields, n);
        lemma_delimited_more(s, t);
        if tag.wire_type == WireType::LengthDelimited && packable(kind) {
            let p = take_delimited(s)->Ok_0;
            lemma_packed_wider(kind, n, l, p.0, b, x);
        } else {
            lemma_element_more(m.pool, kind, tag, s, depth, b, t, x);
            let r = take_element(m.pool, kind, tag, s, depth, b)->Ok_0;
            let b1 = charge(r.2, element_cost())->Ok_0;
            assert(charge(wider(r.2, x), element_cost()) == Ok::<Budget, DecodeError>(
                wider(b1, x),
            ));
        }
    }
}

#[verifier::spinoff_prover]
proof fn lemma_map_more(
    m: MessageModel,
    n: u32,
    key: ScalarType,
    kind: SingularKind,
    enum_type: Option<EnumType>,
    s: Seq<u8>,
    depth: nat,
    b: Budget,
    t: Seq<u8>,
    x: Budget,
)
    requires
        fits(b, x),
    ensures
        agrees(
            merge_map(m, n, key, kind, enum_type, s, depth, b),
            merge_map(m, n, key, kind, enum_type, s + t, depth, wider(b, x)),
            b,
            t,
            x,
        ),
    decreases depth, s.len(), 2nat,
{
    if kind matches SingularKind::Enum(e) && enum_is_closed(m.pool, e, enum_type) {
        lemma_closed_map_more(m, n, key, kind->Enum_0, s, depth, b, t, x);
    } else if merge_map(m, n, key, kind, enum_type, s, depth, b).1 is Ok {
        lemma_take_delimited(s);
        lemma_delimited_more(s, t);
        let p = take_delimited(s)->Ok_0;
        lemma_entry_wider(m.pool, key, kind, p.0, depth, b, None, None, x);
        let r = take_entry(m.pool, key, kind, p.0, depth, b, None, None)->Ok_0;
        let b1 = charge(r.2, entry_cost())->Ok_0;
        assert(charge(wider(r.2, x), entry_cost()) == Ok::<Budget, DecodeError>(wider(b1, x)));
        let m1 = add_entry(
            m,
            n,
            or_default(r.0, key_default(key)),
            or_default(r.1, element_default(kind, m.pool)),
        );
        assert(merge_map(m, n, key, kind, enum_type, s, depth, b) == (
            m1,
            Ok::<(Seq<u8>, Budget), DecodeError>((p.1, b1)),
        ));
        assert(take_entry(m.pool, key, kind, p.0, depth, wider(b, x), None, None)->Ok_0.2 == wider(
            r.2,
            x,
        ));
        assert(merge_map(m, n, key, kind, enum_type, s + t, depth, wider(b, x)) == (
            m1,
            Ok::<(Seq<u8>, Budget), DecodeError>((p.1 + t, wider(b1, x))),
        ));
    }
}

proof fn lemma_existing_more(
    m: MessageModel,
    n: u32,
    tag: Tag,
    s: Seq<u8>,
    depth: nat,
    b: Budget,
    t: Seq<u8>,
    x: Budget,
)
    requires
        fits(b, x),
    ensures
        agrees(
            merge_existing(m, n, tag, s, depth, b),
            merge_existing(m, n, tag, s + t, depth, wider(b, x)),
            b,
            t,
            x,
        ),
    decreases depth, s.len(), 2nat,
{
    if depth > 0 {
        if let Some(ValueModel::Message(y)) = field_get(m.fields, n) {
            lemma_body_more(y, tag, s, (depth - 1) as nat, b, t, x);
        }
    }
}

proof fn lemma_unknown_more(
    m: MessageModel,
    tag: Tag,
    s: Seq<u8>,
    depth: nat,
    b: Budget,
    t: Seq<u8>,
    x: Budget,
)
    requires
        fits(b, x),
    ensures
        agrees(
            merge_unknown(m, tag, s, depth, b),
            merge_unknown(m, tag, s + t, depth, wider(b, x)),
            b,
            t,
            x,
        ),
{
    lemma_payload_more(tag, s, depth, Some(b.unknown as nat), t, x.unknown as nat);
    lemma_take_payload(tag, s, depth, Some(b.unknown as nat));
}

/// A field is merged in the same way with more bytes behind it and under wider
/// limits.
proof fn lemma_field_more(
    m: MessageModel,
    tag: Tag,
    s: Seq<u8>,
    depth: nat,
    b: Budget,
    t: Seq<u8>,
    x: Budget,
)
    requires
        fits(b, x),
    ensures
        agrees(
            merge_field(m, tag, s, depth, b),
            merge_field(m, tag, s + t, depth, wider(b, x)),
            b,
            t,
            x,
        ),
    decreases depth, s.len(), 3nat,
{
    let n = tag.field_number;
    lemma_unknown_more(m, tag, s, depth, b, t, x);
    if let Some(fd) = field_of(m.pool, m.index, n) {
        if wire_admits(fd.kind, tag.wire_type) {
            match fd.kind {
                FieldKind::Singular(SingularKind::Enum(e)) => {
                    lemma_scalar_more(ScalarType::Int32, s, t);
                },
                FieldKind::Singular(k) => {
                    let c = clear_oneof(m, fd.oneof_index, n);
                    lemma_existing_more(c, n, tag, s, depth, b, t, x);
                    lemma_element_more(m.pool, k, tag, s, depth, b, t, x);
                },
                FieldKind::List(k) => {
                    lemma_list_more(m, n, k, fd.enum_type, tag, s, depth, b, t, x);
                },
                FieldKind::Mapping { key, value } => {
                    lemma_map_more(m, n, key, value, fd.enum_type, s, depth, b, t, x);
                },
            }
        }
    }
}

/// Merging fields from bytes in two parts, the first of which ends where a
/// field ends.
proof fn lemma_fields_joined(m: MessageModel, s: Seq<u8>, t: Seq<u8>, depth: nat, b: Budget)
    ensures
        merge_fields(m, s, None, depth, b).1 matches Ok(l) ==> l.0.len() == 0 && merge_fields(
            m,
            s + t,
            None,
            depth,
            b,
        ) == merge_fields(merge_fields(m, s, None, depth, b).0, t, None, depth, l.1),
    decreases s.len(),
{
    lemma_take_tag(s);
    lemma_tag_more(s, t);
    if s.len() == 0 {
        assert(s + t =~= t);
    } else if merge_fields(m, s, None, depth, b).1 is Ok {
        let g = take_tag(s)->Ok_0;
        let none = Budget { unknown: 0, elements: 0 };
        lemma_field_more(m, g.0, g.1, depth, b, t, none);
        assert(wider(b, none) == b);
        let r = merge_field(m, g.0, g.1, depth, b);
        let l = r.1->Ok_0;
        assert(wider(l.1, none) == l.1);
        lemma_fields_joined(r.0, l.0, t, depth, l.1);
    }
}

// ── Maps out of order ───────────────────────────────────────────────────────

/// The messages are the same but for the order in which the entries of their
/// own maps were added.
pub open spec fn alike(m: MessageModel, n: MessageModel) -> bool {
    normal_message(m) == normal_message(n)
}

proof fn lemma_normal_get(fields: Seq<(u32, ValueModel)>, n: u32)
    ensures
        field_get(normal_fields(fields), n) == match field_get(fields, n) {
            Some(v) => Some(normal_value(v)),
            None => None,
        },
    decreases fields.len(),
{
    if fields.len() > 0 {
        assert(normal_fields(fields).drop_last() =~= normal_fields(fields.drop_last()));
        lemma_normal_get(fields.drop_last(), n);
    }
}

proof fn lemma_normal_put(fields: Seq<(u32, ValueModel)>, n: u32, v: ValueModel)
    ensures
        normal_fields(field_insert(fields, n, v)) == field_insert(
            normal_fields(fields),
            n,
            normal_value(v),
        ),
        normal_fields(field_replace(fields, n, v)) == field_replace(
            normal_fields(fields),
            n,
            normal_value(v),
        ),
        normal_fields(field_del(fields, n)) == field_del(normal_fields(fields), n),
    decreases fields.len(),
{
    let f = normal_fields(fields);
    if fields.len() > 0 {
        let t = fields.drop_last();
        assert(f.drop_last() =~= normal_fields(t));
        lemma_normal_put(t, n, v);
        assert(f.last() == (fields.last().0, normal_value(fields.last().1)));
    }
    assert(normal_fields(field_insert(fields, n, v)) =~= field_insert(f, n, normal_value(v)));
    assert(normal_fields(field_replace(fields, n, v)) =~= field_replace(f, n, normal_value(v)));
    assert(normal_fields(field_del(fields, n)) =~= field_del(f, n));
}

/// Messages that are alike are so with the same field put in them.
proof fn lemma_alike_put(m: MessageModel, n: MessageModel, k: u32, v: ValueModel, w: ValueModel)
    requires
        alike(m, n),
        normal_value(v) == normal_value(w),
    ensures
        alike(with_field(m, k, v), with_field(n, k, w)),
{
    lemma_normal_get(m.fields, k);
    lemma_normal_get(n.fields, k);
    lemma_normal_put(m.fields, k, v);
    lemma_normal_put(n.fields, k, w);
    assert(normal_message(m).fields == normal_message(n).fields);
}

proof fn lemma_alike_cleared(
    f: Seq<(u32, ValueModel)>,
    g: Seq<(u32, ValueModel)>,
    declared: Seq<FieldDescriptor>,
    members: Seq<u16>,
    keep: u32,
    i: nat,
)
    requires
        normal_fields(f) == normal_fields(g),
    ensures
        normal_fields(clear_members(f, declared, members, keep, i)) == normal_fields(
            clear_members(g, declared, members, keep, i),
        ),
    decreases members.len() - i,
{
    if i < members.len() {
        let k = members[i as int] as int;
        if k < declared.len() && declared[k].number != keep {
            lemma_normal_put(f, declared[k].number, ValueModel::Bool(false));
            lemma_normal_put(g, declared[k].number, ValueModel::Bool(false));
            lemma_alike_cleared(
                field_del(f, declared[k].number),
                field_del(g, declared[k].number),
                declared,
                members,
                keep,
                i + 1,
            );
        } else {
            lemma_alike_cleared(f, g, declared, members, keep, i + 1);
        }
    }
}

/// What messages that are alike have in common.
proof fn lemma_alike(m: MessageModel, n: MessageModel, k: u32)
    requires
        alike(m, n),
    ensures
        m.pool == n.pool,
        m.index == n.index,
        m.unknown == n.unknown,
        normal_fields(m.fields) == normal_fields(n.fields),
        field_get(m.fields, k) is Some <==> field_get(n.fields, k) is Some,
        field_get(m.fields, k) matches Some(v) ==> normal_value(v) == normal_value(
            field_get(n.fields, k)->Some_0,
        ),
        list_at(m.fields, k) == list_at(n.fields, k),
        normal_entries(map_at(m.fields, k)) == normal_entries(map_at(n.fields, k)),
{
    let a = normal_message(m);
    let b = normal_message(n);
    assert(a.pool == m.pool && a.index == m.index && a.unknown == m.unknown);
    assert(b.pool == n.pool && b.index == n.index && b.unknown == n.unknown);
    lemma_normal_get(m.fields, k);
    lemma_normal_get(n.fields, k);
}

proof fn lemma_alike_clear(m: MessageModel, n: MessageModel, oneof: Option<u16>, keep: u32)
    requires
        alike(m, n),
    ensures
        alike(clear_oneof(m, oneof, keep), clear_oneof(n, oneof, keep)),
{
    lemma_alike(m, n, keep);
    let md = m.pool.message_seq()[m.index.0 as int];
    if let Some(oi) = oneof {
        if oi < md.oneofs@.len() {
            lemma_alike_cleared(
                m.fields,
                n.fields,
                md.fields@,
                md.oneofs@[oi as int].field_indices@,
                keep,
                0,
            );
        }
    }
}

proof fn lemma_alike_unknown(m: MessageModel, n: MessageModel, e: UnknownEntry)
    requires
        alike(m, n),
    ensures
        alike(with_unknown(m, e), with_unknown(n, e)),
{
    lemma_alike(m, n, 0);
}

proof fn lemma_alike_entry(m: MessageModel, n: MessageModel, f: u32, k: KeyModel, v: ValueModel)
    requires
        alike(m, n),
    ensures
        alike(add_entry(m, f, k, v), add_entry(n, f, k, v)),
{
    lemma_alike(m, n, f);
    let a = map_at(m.fields, f);
    let b = map_at(n.fields, f);
    assert(a.push((k, v)).drop_last() =~= a);
    assert(b.push((k, v)).drop_last() =~= b);
    lemma_alike_put(
        m,
        n,
        f,
        ValueModel::Mapping(a.push((k, v))),
        ValueModel::Mapping(b.push((k, v))),
    );
}

proof fn lemma_alike_packed_closed(
    m: MessageModel,
    n: MessageModel,
    number: u32,
    e: EnumIndex,
    known: Seq<ValueModel>,
    s: Seq<u8>,
    b: Budget,
)
    requires
        alike(m, n),
    ensures
        alike(
            merge_packed_closed(m, number, e, known, s, b).0,
            merge_packed_closed(n, number, e, known, s, b).0,
        ),
        merge_packed_closed(m, number, e, known, s, b).1 == merge_packed_closed(
            n,
            number,
            e,
            known,
            s,
            b,
        ).1,
    decreases s.len(),
{
    lemma_alike(m, n, number);
    if s.len() > 0 {
        if let Ok(p) = take_int32(s) {
            if p.1.len() < s.len() {
                if enum_knows(m.pool, e, Some(EnumType::Closed), p.0) {
                    if let Ok(b1) = charge(b, element_cost()) {
                        lemma_alike_packed_closed(
                            m,
                            n,
                            number,
                            e,
                            known.push(ValueModel::EnumNumber(p.0)),
                            p.1,
                            b1,
                        );
                    }
                } else {
                    let k = keep_number(m, number, p.0, p.1, b);
                    let l = keep_number(n, number, p.0, p.1, b);
                    if b.unknown > 0 {
                        lemma_alike_unknown(m, n, k.0.unknown.last());
                        assert(k.0.unknown.last() == l.0.unknown.last());
                        lemma_alike_packed_closed(k.0, l.0, number, e, known, p.1, k.1->Ok_0.1);
                    }
                }
            }
        }
    }
}

/// The two steps fare alike.
spec fn both(
    r: (MessageModel, Result<(Seq<u8>, Budget), DecodeError>),
    w: (MessageModel, Result<(Seq<u8>, Budget), DecodeError>),
) -> bool {
    alike(r.0, w.0) && r.1 == w.1
}

proof fn lemma_alike_known(m: MessageModel, n: MessageModel, f: u32, known: Seq<ValueModel>)
    requires
        alike(m, n),
    ensures
        alike(add_known(m, f, known), add_known(n, f, known)),
{
    lemma_alike(m, n, f);
    let l = ValueModel::List(list_at(m.fields, f) + known);
    lemma_alike_put(m, n, f, l, l);
}

proof fn lemma_alike_kept(m: MessageModel, n: MessageModel, e: UnknownEntry, r: Seq<u8>, b: Budget)
    requires
        alike(m, n),
    ensures
        both(keep_unknown(m, e, r, b), keep_unknown(n, e, r, b)),
{
    lemma_alike_unknown(m, n, e);
}

proof fn lemma_alike_list(
    m: MessageModel,
    n: MessageModel,
    f: u32,
    kind: SingularKind,
    enum_type: Option<EnumType>,
    tag: Tag,
    s: Seq<u8>,
    depth: nat,
    b: Budget,
)
    requires
        alike(m, n),
    ensures
        both(
            merge_list(m, f, kind, enum_type, tag, s, depth, b),
            merge_list(n, f, kind, enum_type, tag, s, depth, b),
        ),
{
    lemma_alike(m, n, f);
    if kind matches SingularKind::Enum(e) && enum_is_closed(m.pool, e, enum_type) {
        let e = kind->Enum_0;
        if tag.wire_type == WireType::LengthDelimited {
            if let Ok(p) = take_delimited(s) {
                let none = Seq::<ValueModel>::empty();
                lemma_alike_packed_closed(m, n, f, e, none, p.0, b);
                let x = merge_packed_closed(m, f, e, none, p.0, b);
                let y = merge_packed_closed(n, f, e, none, p.0, b);
                if let Ok(r) = x.1 {
                    lemma_alike_known(x.0, y.0, f, r.0);
                }
            }
        } else if let Ok(p) = take_int32(s) {
            lemma_alike_known(m, n, f, seq![ValueModel::EnumNumber(p.0)]);
            let k = keep_number(m, f, p.0, p.1, b);
            if b.unknown > 0 {
                lemma_alike_unknown(m, n, k.0.unknown.last());
            }
        }
    } else {
        let l = list_at(m.fields, f);
        lemma_alike_put(m, n, f, ValueModel::List(l), ValueModel::List(l));
        if tag.wire_type == WireType::LengthDelimited && packable(kind) {
            if let Ok(p) = take_delimited(s) {
                let l1 = ValueModel::List(merge_packed(kind, f, l, p.0, b).0);
                lemma_alike_put(m, n, f, l1, l1);
            }
        } else if let Ok(r) = take_element(m.pool, kind, tag, s, depth, b) {
            let l1 = ValueModel::List(l.push(r.0));
            lemma_alike_put(m, n, f, l1, l1);
        }
    }
}

proof fn lemma_alike_map(
    m: MessageModel,
    n: MessageModel,
    f: u32,
    key: ScalarType,
    kind: SingularKind,
    enum_type: Option<EnumType>,
    s: Seq<u8>,
    depth: nat,
    b: Budget,
)
    requires
        alike(m, n),
    ensures
        both(
            merge_map(m, f, key, kind, enum_type, s, depth, b),
            merge_map(n, f, key, kind, enum_type, s, depth, b),
        ),
{
    lemma_alike(m, n, f);
    if let Ok(p) = take_delimited(s) {
        if kind matches SingularKind::Enum(e) && enum_is_closed(m.pool, e, enum_type) {
            let e = kind->Enum_0;
            if let Ok(r) = take_closed_entry(
                m.pool,
                key,
                e,
                p.0,
                depth,
                None,
                ClosedValue::Absent,
            ) {
                let k = or_default(r.0, key_default(key));
                let v = match r.1 {
                    ClosedValue::Known(x) => x,
                    _ => 0,
                };
                lemma_alike_entry(m, n, f, k, ValueModel::EnumNumber(v));
                lemma_alike_kept(
                    m,
                    n,
                    UnknownEntry {
                        number: f,
                        data: UnknownPayload::LengthDelimited(p.0),
                    },
                    p.1,
                    b,
                );
            }
        } else if let Ok(r) = take_entry(m.pool, key, kind, p.0, depth, b, None, None) {
            lemma_alike_entry(
                m,
                n,
                f,
                or_default(r.0, key_default(key)),
                or_default(r.1, element_default(kind, m.pool)),
            );
        }
    }
}

proof fn lemma_alike_existing(
    m: MessageModel,
    n: MessageModel,
    f: u32,
    tag: Tag,
    s: Seq<u8>,
    depth: nat,
    b: Budget,
)
    requires
        alike(m, n),
    ensures
        both(merge_existing(m, f, tag, s, depth, b), merge_existing(n, f, tag, s, depth, b)),
{
    lemma_alike(m, n, f);
    if depth > 0 {
        if let Some(ValueModel::Message(x)) = field_get(m.fields, f) {
            let r = merge_body(x, tag, s, (depth - 1) as nat, b);
            assert(field_get(n.fields, f) == Some(ValueModel::Message(x)));
            lemma_alike_put(m, n, f, ValueModel::Message(r.0), ValueModel::Message(r.0));
        }
    }
}

proof fn lemma_alike_field(
    m: MessageModel,
    n: MessageModel,
    tag: Tag,
    s: Seq<u8>,
    depth: nat,
    b: Budget,
)
    requires
        alike(m, n),
    ensures
        both(merge_field(m, tag, s, depth, b), merge_field(n, tag, s, depth, b)),
{
    let f = tag.field_number;
    lemma_alike(m, n, f);
    if let Ok(p) = take_payload(tag, s, depth, Some(b.unknown as nat)) {
        lemma_alike_unknown(m, n, UnknownEntry { number: f, data: p.0 });
    }
    assert(both(merge_unknown(m, tag, s, depth, b), merge_unknown(n, tag, s, depth, b)));
    if let Some(fd) = field_of(m.pool, m.index, f) {
        if wire_admits(fd.kind, tag.wire_type) {
            let c = clear_oneof(m, fd.oneof_index, f);
            let d = clear_oneof(n, fd.oneof_index, f);
            lemma_alike_clear(m, n, fd.oneof_index, f);
            match fd.kind {
                FieldKind::Singular(SingularKind::Enum(e)) => {
                    if let Ok(p) = take_int32(s) {
                        let v = ValueModel::EnumNumber(p.0);
                        lemma_alike_put(c, d, f, v, v);
                        if b.unknown > 0 {
                            let k = keep_number(m, f, p.0, p.1, b);
                            lemma_alike_unknown(m, n, k.0.unknown.last());
                        }
                    }
                },
                FieldKind::Singular(k) => {
                    lemma_alike_existing(c, d, f, tag, s, depth, b);
                    if let Ok(r) = take_element(m.pool, k, tag, s, depth, b) {
                        lemma_alike_put(c, d, f, r.0, r.0);
                    }
                },
                FieldKind::List(k) => {
                    lemma_alike_list(m, n, f, k, fd.enum_type, tag, s, depth, b);
                },
                FieldKind::Mapping { key, value } => {
                    lemma_alike_map(m, n, f, key, value, fd.enum_type, s, depth, b);
                },
            }
        }
    }
}

proof fn lemma_alike_fields(
    m: MessageModel,
    n: MessageModel,
    s: Seq<u8>,
    depth: nat,
    b: Budget,
)
    requires
        alike(m, n),
    ensures
        both(merge_fields(m, s, None, depth, b), merge_fields(n, s, None, depth, b)),
    decreases s.len(),
{
    lemma_take_tag(s);
    if s.len() > 0 {
        if let Ok(g) = take_tag(s) {
            lemma_alike_field(m, n, g.0, g.1, depth, b);
            let r = merge_field(m, g.0, g.1, depth, b);
            let w = merge_field(n, g.0, g.1, depth, b);
            if let Ok(l) = r.1 {
                if l.0.len() < s.len() {
                    lemma_alike_fields(r.0, w.0, l.0, depth, l.1);
                }
            }
        }
    }
}

proof fn lemma_normal_alike(m: MessageModel)
    ensures
        alike(normal_message(m), m),
{
    let f = normal_fields(m.fields);
    assert forall|i: int| 0 <= i < f.len() implies normal_value((#[trigger] f[i]).1) == f[i].1 by {
        if let ValueModel::Mapping(e) = m.fields[i].1 {
            lemma_normal_entries_sorted(e);
            lemma_normal_entries_id(normal_entries(e));
        }
    }
    assert(normal_fields(f) =~= f);
}

// ── Packed, and one by one ──────────────────────────────────────────────────

/// The parts, one behind the other.
pub open spec fn join(parts: Seq<Seq<u8>>) -> Seq<u8>
    decreases parts.len(),
{
    if parts.len() == 0 {
        Seq::empty()
    } else {
        parts[0] + join(parts.skip(1))
    }
}

/// The bytes are those of one element.
pub open spec fn is_element(kind: SingularKind, number: u32, s: Seq<u8>) -> bool {
    take_packed(kind, number, s) matches Ok(p) && p.1.len() == 0
}

/// The elements that the parts stand for.
pub open spec fn elements(kind: SingularKind, number: u32, parts: Seq<Seq<u8>>) -> Seq<ValueModel> {
    Seq::new(parts.len(), |i: int| take_packed(kind, number, parts[i])->Ok_0.0)
}

/// Merges elements one by one, each behind a tag of its own, until one fails.
pub open spec fn merge_each(
    m: MessageModel,
    n: u32,
    kind: SingularKind,
    enum_type: Option<EnumType>,
    tag: Tag,
    parts: Seq<Seq<u8>>,
    depth: nat,
    b: Budget,
) -> (MessageModel, Result<Budget, DecodeError>)
    decreases parts.len(),
{
    if parts.len() == 0 {
        (m, Ok(b))
    } else {
        match merge_list(m, n, kind, enum_type, tag, parts[0], depth, b) {
            (m1, Err(e)) => (m1, Err(e)),
            (m1, Ok(l)) => merge_each(m1, n, kind, enum_type, tag, parts.skip(1), depth, l.1),
        }
    }
}

proof fn lemma_packed_element(kind: SingularKind, n: u32, s: Seq<u8>, t: Seq<u8>)
    requires
        is_element(kind, n, s),
    ensures
        s.len() > 0,
        take_packed(kind, n, s + t) == Ok::<(ValueModel, Seq<u8>), DecodeError>(
            (take_packed(kind, n, s)->Ok_0.0, t),
        ),
{
    match kind {
        SingularKind::Scalar(k) => {
            lemma_scalar_more(k, s, t);
            lemma_take_scalar(k, s);
        },
        _ => {
            lemma_scalar_more(ScalarType::Int32, s, t);
            lemma_take_scalar(ScalarType::Int32, s);
        },
    }
    assert(Seq::<u8>::empty() + t =~= t);
    assert(take_packed(kind, n, s)->Ok_0.1 =~= Seq::empty());
}

proof fn lemma_each_open(
    m: MessageModel,
    n: u32,
    kind: SingularKind,
    enum_type: Option<EnumType>,
    tag: Tag,
    parts: Seq<Seq<u8>>,
    depth: nat,
    b: Budget,
)
    requires
        packable(kind),
        !(kind matches SingularKind::Enum(e) && enum_is_closed(m.pool, e, enum_type)),
        tag.wire_type != WireType::LengthDelimited,
        forall|i: int| 0 <= i < parts.len() ==> is_element(kind, n, #[trigger] parts[i]),
        merge_each(m, n, kind, enum_type, tag, parts, depth, b).1 is Ok,
    ensures
        ({
            let l = list_at(m.fields, n) + elements(kind, n, parts);
            let r = merge_each(m, n, kind, enum_type, tag, parts, depth, b);
            &&& merge_packed(kind, n, list_at(m.fields, n), join(parts), b) == (l, r.1)
            &&& parts.len() > 0 ==> r.0 == with_field(m, n, ValueModel::List(l))
        }),
    decreases parts.len(),
{
    let l = list_at(m.fields, n);
    let all = elements(kind, n, parts);
    if parts.len() == 0 {
        assert(l + all =~= l);
    } else {
        let rest = parts.skip(1);
        let s = parts[0];
        let v = take_packed(kind, n, s)->Ok_0.0;
        assert(is_element(kind, n, parts[0]));
        lemma_packed_element(kind, n, s, join(rest));
        let step = merge_list(m, n, kind, enum_type, tag, s, depth, b);
        let b1 = step.1->Ok_0.1;
        let m1 = with_field(m, n, ValueModel::List(l.push(v)));
        assert(step.0 == m1);
        assert(charge(b, element_cost()) == Ok::<Budget, DecodeError>(b1));
        lemma_put_get(m.fields, n, ValueModel::List(l.push(v)), n);
        assert(list_at(m1.fields, n) == l.push(v));
        assert forall|i: int| 0 <= i < rest.len() implies is_element(kind, n, #[trigger] rest[i]) by {
            assert(is_element(kind, n, parts[i + 1]));
        }
        lemma_each_open(m1, n, kind, enum_type, tag, rest, depth, b1);
        let more = elements(kind, n, rest);
        assert(l.push(v) + more =~= l + all);
        lemma_put_put(
            m.fields,
            n,
            ValueModel::List(l.push(v)),
            ValueModel::List(l + all),
        );
        if rest.len() == 0 {
            assert(more =~= Seq::empty());
            assert(l.push(v) =~= l + all);
        }
    }
}

proof fn lemma_known_twice(m: MessageModel, n: u32, known: Seq<ValueModel>, v: ValueModel)
    ensures
        add_known(add_known(m, n, known), n, seq![v]) == add_known(m, n, known.push(v)),
{
    let l = list_at(m.fields, n);
    assert(l + known.push(v) =~= (l + known) + seq![v]);
    if known.len() > 0 {
        lemma_put_get(m.fields, n, ValueModel::List(l + known), n);
        lemma_put_put(
            m.fields,
            n,
            ValueModel::List(l + known),
            ValueModel::List(l + known.push(v)),
        );
    } else {
        assert(known.push(v) =~= seq![v]);
    }
}

proof fn lemma_each_closed(
    m: MessageModel,
    n: u32,
    e: EnumIndex,
    known: Seq<ValueModel>,
    enum_type: Option<EnumType>,
    tag: Tag,
    parts: Seq<Seq<u8>>,
    depth: nat,
    b: Budget,
)
    requires
        enum_is_closed(m.pool, e, enum_type),
        tag.wire_type != WireType::LengthDelimited,
        forall|i: int|
            0 <= i < parts.len() ==> is_element(SingularKind::Enum(e), n, #[trigger] parts[i]),
        merge_each(
            add_known(m, n, known),
            n,
            SingularKind::Enum(e),
            enum_type,
            tag,
            parts,
            depth,
            b,
        ).1 is Ok,
    ensures
        ({
            let r = merge_each(
                add_known(m, n, known),
                n,
                SingularKind::Enum(e),
                enum_type,
                tag,
                parts,
                depth,
                b,
            );
            let w = merge_packed_closed(m, n, e, known, join(parts), b);
            w.1 matches Ok(k) && k.1 == r.1->Ok_0 && add_known(w.0, n, k.0) == r.0
        }),
    decreases parts.len(),
{
    let kind = SingularKind::Enum(e);
    if parts.len() > 0 {
        let rest = parts.skip(1);
        let s = parts[0];
        let x = add_known(m, n, known);
        assert(is_element(kind, n, parts[0]));
        lemma_packed_element(kind, n, s, join(rest));
        let p = take_int32(s)->Ok_0;
        let step = merge_list(x, n, kind, enum_type, tag, s, depth, b);
        assert(step == merge_closed_list(x, n, e, tag, s, b));
        assert(take_int32(s + join(rest)) == Ok::<(i32, Seq<u8>), DecodeError>((p.0, join(rest))));
        assert forall|i: int| 0 <= i < rest.len() implies is_element(kind, n, #[trigger] rest[i]) by {
            assert(is_element(kind, n, parts[i + 1]));
        }
        if enum_knows(m.pool, e, Some(EnumType::Closed), p.0) {
            let v = ValueModel::EnumNumber(p.0);
            lemma_known_twice(m, n, known, v);
            lemma_each_closed(
                m,
                n,
                e,
                known.push(v),
                enum_type,
                tag,
                rest,
                depth,
                step.1->Ok_0.1,
            );
        } else {
            let k = keep_number(m, n, p.0, p.1, b);
            assert(add_known(k.0, n, known) == step.0);
            lemma_each_closed(k.0, n, e, known, enum_type, tag, rest, depth, step.1->Ok_0.1);
        }
    }
}

// ── The laws ────────────────────────────────────────────────────────────────

/// Merging bytes is merging a first part of them and then the rest, if both the
/// part and the whole can be merged.
pub proof fn law_merge_parts(m: MessageModel, a: Seq<u8>, b: Seq<u8>, o: DecodeOptions)
    requires
        merged(m, a, o).1 is Ok,
        merged(m, a + b, o).1 is Ok,
    ensures
        merged(merged(m, a, o).0, b, o) == merged(m, a + b, o),
{
    let d = o.recursion_limit as nat;
    let full = full_budget(o);
    let r = merge_fields(m, a, None, d, full);
    let l = r.1->Ok_0;
    lemma_fields_joined(m, a, b, d, full);
    lemma_fields_wider(m, a, d, full, Budget { unknown: 0, elements: 0 });
    let x = Budget {
        unknown: (full.unknown - l.1.unknown) as usize,
        elements: (full.elements - l.1.elements) as usize,
    };
    lemma_fields_wider(r.0, b, d, l.1, x);
    assert(wider(l.1, x) == full);
    lemma_normal_alike(r.0);
    lemma_alike_fields(normal_message(r.0), r.0, b, d, full);
}

/// Decoding bytes is decoding a first part of them and merging the rest, if
/// both the part and the whole can be decoded.
pub proof fn law_decode_parts(
    pool: DescriptorPool,
    index: MessageIndex,
    a: Seq<u8>,
    b: Seq<u8>,
    o: DecodeOptions,
)
    requires
        decoded(pool, index, a, o) is Ok,
        decoded(pool, index, a + b, o) is Ok,
    ensures
        merged(decoded(pool, index, a, o)->Ok_0, b, o) == (
            decoded(pool, index, a + b, o)->Ok_0,
            Ok::<(), DecodeError>(()),
        ),
{
    law_merge_parts(empty_message(pool, index), a, b, o);
}

/// A payload of packed elements leaves in the list what the elements leave that
/// come one by one: what was there, and behind it the elements in the order in
/// which they came. Nothing else changes, but that a number that a closed enum
/// does not declare is kept as an unknown field.
pub proof fn law_packed_or_not(
    m: MessageModel,
    n: u32,
    kind: SingularKind,
    enum_type: Option<EnumType>,
    one: Tag,
    all: Tag,
    parts: Seq<Seq<u8>>,
    tail: Seq<u8>,
    depth: nat,
    b: Budget,
)
    requires
        packable(kind),
        one.wire_type != WireType::LengthDelimited,
        all.wire_type == WireType::LengthDelimited,
        join(parts).len() <= usize::MAX,
        forall|i: int| 0 <= i < parts.len() ==> is_element(kind, n, #[trigger] parts[i]),
        merge_each(m, n, kind, enum_type, one, parts, depth, b).1 is Ok,
    ensures
        ({
            let r = merge_each(m, n, kind, enum_type, one, parts, depth, b);
            let w = merge_list(
                m,
                n,
                kind,
                enum_type,
                all,
                delimited_bytes(join(parts)) + tail,
                depth,
                b,
            );
            &&& w.1 == Ok::<(Seq<u8>, Budget), DecodeError>((tail, r.1->Ok_0))
            &&& list_at(w.0.fields, n) == list_at(r.0.fields, n)
            &&& parts.len() > 0 ==> w.0 == r.0
            &&& parts.len() > 0 && !(kind matches SingularKind::Enum(e) && enum_is_closed(
                m.pool,
                e,
                enum_type,
            )) ==> w.0 == with_field(
                m,
                n,
                ValueModel::List(list_at(m.fields, n) + elements(kind, n, parts)),
            )
        }),
{
    lemma_take_delimited_bytes(join(parts), tail);
    if kind matches SingularKind::Enum(e) && enum_is_closed(m.pool, e, enum_type) {
        let none = Seq::<ValueModel>::empty();
        lemma_each_closed(m, n, kind->Enum_0, none, enum_type, one, parts, depth, b);
    } else {
        let l = list_at(m.fields, n) + elements(kind, n, parts);
        lemma_each_open(m, n, kind, enum_type, one, parts, depth, b);
        lemma_put_get(m.fields, n, ValueModel::List(l), n);
        if parts.len() == 0 {
            assert(l =~= list_at(m.fields, n));
        }
    }
}

} // verus!
