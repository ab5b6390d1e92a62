//! What merging keeps, whatever the bytes and whether or not it fails.
use vstd::prelude::*;
use crate::descriptor::{
    enum_is_closed, enum_knows, field_of, lemma_field_of, pool_linked, singular_linked,
    DescriptorPool, EnumIndex, EnumType, FieldDescriptor, FieldKind, MessageIndex, ScalarType,
    SingularKind,
};
use crate::kept::{
    among, exclusive, lemma_clear_kept, lemma_get_among, lemma_put_exclusive, lemma_put_kept,
    loosely_ordered, ordered, regular, regular_element, regular_field, regular_held, regular_value,
    shares_oneof, value_loose, value_ordered,
};
use crate::map::{entry_put, lemma_normal_entries_sorted, normal_entries};
use crate::merge::{
    add_entry, add_known, charge, clear_members, clear_oneof, element_cost, element_default,
    keep_number, keep_unknown, merge_body, merge_closed_list, merge_closed_map, merge_existing,
    merge_field, merge_fields, merge_list, merge_map, merge_message, merge_packed,
    merge_packed_closed, merge_unknown, normal_message, or_default, take_closed_entry, take_element,
    take_entry, take_packed, with_unknown, Budget, ClosedValue,
};
use crate::roundtrip::{is_number, stays_unknown};
use crate::scalar::{key_default, lemma_take_scalar, packable, take_int32, take_key, wire_admits};
use crate::shape::{key_fits, scalar_fits};
use crate::unknown::{
    entry_depth, entry_sound, lemma_take_payload, payload_wire, skip_payload, spend, take_group,
    take_payload, unknown_depth, unknown_sound, UnknownEntry, UnknownPayload,
};
use crate::value::{
    empty_message, field_del, field_get, fields_sorted, lemma_put_same, list_at, map_at, with_field,
    KeyModel, MessageModel, ValueModel,
};
use crate::wire::{
    lemma_take_delimited, lemma_take_tag, signed32, take_delimited, take_tag, wrap64, Tag, WireType,
    MAX_FIELD_NUMBER,
};

verus! {

/// The entries of `a` stand at the front of `b`.
pub open spec fn grows(a: Seq<UnknownEntry>, b: Seq<UnknownEntry>) -> bool {
    a.len() <= b.len() && forall|i: int| 0 <= i < a.len() ==> #[trigger] b[i] == a[i]
}

/// `m1` has the type of `m` and its unknown fields in front, is in order if
/// `m` is, and is such as decoding makes if `m` is.
pub open spec fn keeps(m: MessageModel, m1: MessageModel, depth: nat) -> bool {
    &&& m1.pool == m.pool
    &&& m1.index == m.index
    &&& grows(m.unknown, m1.unknown)
    &&& loosely_ordered(m) ==> loosely_ordered(m1)
    &&& pool_linked(m.pool) && regular(m, depth) ==> regular(m1, depth)
}

proof fn lemma_keeps_both(a: MessageModel, b: MessageModel, c: MessageModel, depth: nat)
    requires
        keeps(a, b, depth),
        keeps(b, c, depth),
    ensures
        keeps(a, c, depth),
{
    assert forall|i: int| 0 <= i < a.unknown.len() implies #[trigger] c.unknown[i]
        == a.unknown[i] by {
        assert(b.unknown[i] == a.unknown[i]);
    }
}

// ── Unknown fields ──────────────────────────────────────────────────────────

proof fn lemma_unknown_push(us: Seq<UnknownEntry>, e: UnknownEntry, depth: nat)
    requires
        unknown_sound(us),
        unknown_depth(us) <= depth,
        entry_sound(e),
        entry_depth(e) <= depth,
    ensures
        unknown_sound(us.push(e)),
        unknown_depth(us.push(e)) <= depth,
    decreases us.len(),
{
    let more = us.push(e);
    if us.len() == 0 {
        assert(more.subrange(1, 1) =~= Seq::<UnknownEntry>::empty());
        assert(unknown_sound(more.subrange(1, 1)));
        assert(unknown_depth(more.subrange(1, 1)) == 0);
    } else {
        let t = us.subrange(1, us.len() as int);
        lemma_unknown_push(t, e, depth);
        assert(more.subrange(1, more.len() as int) =~= t.push(e));
    }
}

/// Keeping a field that stays unknown.
proof fn lemma_with_unknown(m: MessageModel, e: UnknownEntry, depth: nat)
    requires
        pool_linked(m.pool) ==> stays_unknown(m, e, depth) && entry_sound(e) && entry_depth(e)
            <= depth,
    ensures
        keeps(m, with_unknown(m, e), depth),
{
    let m1 = with_unknown(m, e);
    if pool_linked(m.pool) && regular(m, depth) {
        lemma_unknown_push(m.unknown, e, depth);
        assert forall|i: int| 0 <= i < m1.unknown.len() implies stays_unknown(
            m1,
            #[trigger] m1.unknown[i],
            depth,
        ) by {
            if i < m.unknown.len() {
                assert(stays_unknown(m, m.unknown[i], depth));
                assert(m1.unknown[i] == m.unknown[i]);
            }
        }
        assert(exclusive(m1)) by {
            assert(m1.fields == m.fields);
        }
        assert(regular(m1, depth));
    }
}

proof fn lemma_keep_unknown(m: MessageModel, e: UnknownEntry, rest: Seq<u8>, depth: nat, b: Budget)
    requires
        pool_linked(m.pool) ==> stays_unknown(m, e, depth) && entry_sound(e) && entry_depth(e)
            <= depth,
    ensures
        keeps(m, keep_unknown(m, e, rest, b).0, depth),
{
    lemma_with_unknown(m, e, depth);
}

proof fn lemma_number_forms(raw: i32)
    ensures
        wrap64(raw as int) <= u64::MAX,
        is_number(wrap64(raw as int) as u64),
        signed32(wrap64(raw as int)) == raw,
{
}

/// A payload that was read can stand on the wire again.
proof fn lemma_payload_sound(tag: Tag, s: Seq<u8>, depth: nat, slots: Option<nat>)
    requires
        1 <= tag.field_number <= MAX_FIELD_NUMBER,
        s.len() <= usize::MAX,
    ensures
        take_payload(tag, s, depth, slots) matches Ok(p) ==> {
            let e = UnknownEntry { number: tag.field_number, data: p.0 };
            payload_wire(p.0) == tag.wire_type && entry_sound(e) && entry_depth(e) <= depth
        },
    decreases depth, s.len(), 0nat,
{
    lemma_take_delimited(s);
    if tag.wire_type == WireType::StartGroup && depth > 0 {
        lemma_group_sound(tag.field_number, s, (depth - 1) as nat, spend(slots));
    }
}

proof fn lemma_group_sound(number: u32, s: Seq<u8>, depth: nat, slots: Option<nat>)
    requires
        s.len() <= usize::MAX,
    ensures
        take_group(number, s, depth, slots) matches Ok(p) ==> unknown_sound(p.0) && unknown_depth(
            p.0,
        ) <= depth,
    decreases depth, s.len(), 1nat,
{
    lemma_take_tag(s);
    if let Ok(t) = take_tag(s) {
        if t.0.wire_type != WireType::EndGroup {
            lemma_take_payload(t.0, t.1, depth, slots);
            lemma_payload_sound(t.0, t.1, depth, slots);
            if let Ok(p) = take_payload(t.0, t.1, depth, slots) {
                if p.1.len() < s.len() {
                    lemma_group_sound(number, p.1, depth, p.2);
                    if let Ok(g) = take_group(number, p.1, depth, p.2) {
                        let e = UnknownEntry { number: t.0.field_number, data: p.0 };
                        let all = seq![e] + g.0;
                        assert(all.subrange(1, all.len() as int) =~= g.0);
                        assert(all[0] == e);
                    }
                }
            }
        }
    }
}

proof fn lemma_merge_unknown(m: MessageModel, tag: Tag, s: Seq<u8>, depth: nat, b: Budget)
    requires
        1 <= tag.field_number <= MAX_FIELD_NUMBER,
        s.len() <= usize::MAX,
        field_of(m.pool, m.index, tag.field_number) matches Some(fd) ==> !wire_admits(
            fd.kind,
            tag.wire_type,
        ),
    ensures
        keeps(m, merge_unknown(m, tag, s, depth, b).0, depth),
{
    lemma_payload_sound(tag, s, depth, Some(b.unknown as nat));
    if let Ok(p) = take_payload(tag, s, depth, Some(b.unknown as nat)) {
        lemma_with_unknown(m, UnknownEntry { number: tag.field_number, data: p.0 }, depth);
    }
}

// ── Fields ──────────────────────────────────────────────────────────────────

/// Putting a value that is in order and fits.
proof fn lemma_put(m: MessageModel, n: u32, v: ValueModel, depth: nat)
    requires
        field_of(m.pool, m.index, n) is Some,
        loosely_ordered(m) ==> value_loose(v),
        pool_linked(m.pool) && regular(m, depth) ==> regular_value(
            m.pool,
            field_of(m.pool, m.index, n)->Some_0.kind,
            field_of(m.pool, m.index, n)->Some_0.enum_type,
            v,
            depth,
        ),
    ensures
        keeps(
            m,
            with_field(
                clear_oneof(m, field_of(m.pool, m.index, n)->Some_0.oneof_index, n),
                n,
                v,
            ),
            depth,
        ),
        !(field_of(m.pool, m.index, n)->Some_0.kind is Singular) ==> keeps(
            m,
            with_field(m, n, v),
            depth,
        ),
{
    let fd = field_of(m.pool, m.index, n)->Some_0;
    let c = clear_oneof(m, fd.oneof_index, n);
    if fields_sorted(m.fields) {
        lemma_clear_kept(m, fd.oneof_index, n);
        assert forall|k: int| 0 <= k < m.fields.len() implies among(
            m.fields,
            #[trigger] m.fields[k],
        ) by {}
        if pool_linked(m.pool) && regular(m, depth) {
            lemma_put_exclusive(m, n, v);
        }
        lemma_put_on(m, c, n, v, depth);
        if !(fd.kind is Singular) {
            lemma_put_on(m, m, n, v, depth);
        }
    }
}

proof fn lemma_put_on(m: MessageModel, c: MessageModel, n: u32, v: ValueModel, depth: nat)
    requires
        field_of(m.pool, m.index, n) is Some,
        c.pool == m.pool,
        c.index == m.index,
        c.unknown == m.unknown,
        fields_sorted(c.fields),
        forall|k: int| 0 <= k < c.fields.len() ==> among(m.fields, #[trigger] c.fields[k]),
        loosely_ordered(m) ==> value_loose(v),
        pool_linked(m.pool) && regular(m, depth) ==> exclusive(with_field(c, n, v))
            && regular_value(
            m.pool,
            field_of(m.pool, m.index, n)->Some_0.kind,
            field_of(m.pool, m.index, n)->Some_0.enum_type,
            v,
            depth,
        ),
    ensures
        keeps(m, with_field(c, n, v), depth),
{
    let r = with_field(c, n, v);
    lemma_put_kept(c.fields, n, v);
    assert forall|i: int| 0 <= i < r.fields.len() implies r.fields[i] == (n, v) || among(
        m.fields,
        #[trigger] r.fields[i],
    ) by {
        if r.fields[i] != (n, v) {
            let x = choose|x: int| 0 <= x < c.fields.len() && #[trigger] c.fields[x] == r.fields[i];
            assert(among(m.fields, c.fields[x]));
        }
    }
    if loosely_ordered(m) {
        assert forall|i: int| 0 <= i < r.fields.len() implies value_loose(
            (#[trigger] r.fields[i]).1,
        ) by {
            if r.fields[i] != (n, v) {
                let y = choose|y: int|
                    0 <= y < m.fields.len() && #[trigger] m.fields[y] == r.fields[i];
                assert(value_loose(m.fields[y].1));
            }
        }
    }
    if pool_linked(m.pool) && regular(m, depth) {
        assert forall|i: int| 0 <= i < r.fields.len() implies regular_field(
            r.pool,
            r.index,
            #[trigger] r.fields[i],
            depth,
        ) by {
            if r.fields[i] != (n, v) {
                let y = choose|y: int|
                    0 <= y < m.fields.len() && #[trigger] m.fields[y] == r.fields[i];
                assert(regular_field(m.pool, m.index, m.fields[y], depth));
            }
        }
        assert forall|i: int| 0 <= i < r.unknown.len() implies stays_unknown(
            r,
            #[trigger] r.unknown[i],
            depth,
        ) by {
            assert(stays_unknown(m, m.unknown[i], depth));
        }
        assert(regular(r, depth));
    }
}

/// What a list field holds is in order and fits.
proof fn lemma_list_at(m: MessageModel, n: u32, k: SingularKind, depth: nat)
    requires
        field_of(m.pool, m.index, n) matches Some(fd) && fd.kind == FieldKind::List(k),
    ensures
        loosely_ordered(m) ==> forall|i: int|
            0 <= i < list_at(m.fields, n).len() ==> value_ordered(
                #[trigger] list_at(m.fields, n)[i],
            ),
        regular(m, depth) ==> forall|i: int|
            0 <= i < list_at(m.fields, n).len() ==> regular_element(
                m.pool,
                k,
                field_of(m.pool, m.index, n)->Some_0.enum_type,
                #[trigger] list_at(m.fields, n)[i],
                depth,
            ),
{
    lemma_get_among(m.fields, n);
    if let Some(ValueModel::List(l)) = field_get(m.fields, n) {
        let y = choose|y: int|
            0 <= y < m.fields.len() && #[trigger] m.fields[y] == (n, ValueModel::List(l));
        if loosely_ordered(m) {
            assert(value_loose(m.fields[y].1));
        }
        if regular(m, depth) {
            assert(regular_field(m.pool, m.index, m.fields[y], depth));
        }
    }
}

/// What a map field holds is in order and fits.
proof fn lemma_map_at(
    m: MessageModel,
    n: u32,
    key: ScalarType,
    value: SingularKind,
    depth: nat,
)
    requires
        field_of(m.pool, m.index, n) matches Some(fd) && fd.kind == (FieldKind::Mapping {
            key,
            value,
        }),
    ensures
        loosely_ordered(m) ==> forall|i: int|
            0 <= i < map_at(m.fields, n).len() ==> value_ordered(
                (#[trigger] map_at(m.fields, n)[i]).1,
            ),
        regular(m, depth) ==> forall|i: int|
            0 <= i < map_at(m.fields, n).len() ==> key_fits(
                key,
                (#[trigger] map_at(m.fields, n)[i]).0,
            ) && regular_held(m.pool, value, map_at(m.fields, n)[i].1, depth),
{
    lemma_get_among(m.fields, n);
    if let Some(ValueModel::Mapping(e)) = field_get(m.fields, n) {
        let y = choose|y: int|
            0 <= y < m.fields.len() && #[trigger] m.fields[y] == (n, ValueModel::Mapping(e));
        if loosely_ordered(m) {
            assert(value_loose(m.fields[y].1));
        }
        if regular(m, depth) {
            assert(regular_field(m.pool, m.index, m.fields[y], depth));
        }
    }
}

/// Putting a list whose elements are in order and fit.
proof fn lemma_put_list(
    m: MessageModel,
    n: u32,
    k: SingularKind,
    l: Seq<ValueModel>,
    depth: nat,
)
    requires
        field_of(m.pool, m.index, n) matches Some(fd) && fd.kind == FieldKind::List(k),
        loosely_ordered(m) ==> forall|i: int|
            0 <= i < l.len() ==> value_ordered(#[trigger] l[i]),
        pool_linked(m.pool) && regular(m, depth) ==> forall|i: int|
            0 <= i < l.len() ==> regular_element(
                m.pool,
                k,
                field_of(m.pool, m.index, n)->Some_0.enum_type,
                #[trigger] l[i],
                depth,
            ),
    ensures
        keeps(m, with_field(m, n, ValueModel::List(l)), depth),
{
    lemma_put(m, n, ValueModel::List(l), depth);
}

/// Adding an entry that is in order and fits.
proof fn lemma_add_entry(
    m: MessageModel,
    n: u32,
    key: ScalarType,
    value: SingularKind,
    k: KeyModel,
    v: ValueModel,
    depth: nat,
)
    requires
        field_of(m.pool, m.index, n) matches Some(fd) && fd.kind == (FieldKind::Mapping {
            key,
            value,
        }),
        loosely_ordered(m) ==> value_ordered(v),
        pool_linked(m.pool) && regular(m, depth) ==> key_fits(key, k) && regular_held(
            m.pool,
            value,
            v,
            depth,
        ),
    ensures
        keeps(m, add_entry(m, n, k, v), depth),
{
    let e = map_at(m.fields, n);
    let more = e.push((k, v));
    lemma_map_at(m, n, key, value, depth);
    if loosely_ordered(m) {
        assert forall|i: int| 0 <= i < more.len() implies value_ordered(
            (#[trigger] more[i]).1,
        ) by {
            if i < e.len() {
                assert(more[i] == e[i]);
            }
        }
    }
    if pool_linked(m.pool) && regular(m, depth) {
        assert forall|i: int| 0 <= i < more.len() implies key_fits(key, (#[trigger] more[i]).0)
            && regular_held(m.pool, value, more[i].1, depth) by {
            if i < e.len() {
                assert(more[i] == e[i]);
            }
        }
    }
    lemma_put(m, n, ValueModel::Mapping(more), depth);
}

// ── Lists and maps of what needs no recursion ───────────────────────────────

/// Packed elements are added behind the others, are in order and fit.
proof fn lemma_packed(
    pool: DescriptorPool,
    kind: SingularKind,
    enum_type: Option<EnumType>,
    number: u32,
    l: Seq<ValueModel>,
    s: Seq<u8>,
    b: Budget,
    depth: nat,
)
    requires
        kind matches SingularKind::Enum(e) ==> !enum_is_closed(pool, e, enum_type),
    ensures
        ({
            let r = merge_packed(kind, number, l, s, b).0;
            &&& l.len() <= r.len()
            &&& forall|i: int| 0 <= i < l.len() ==> #[trigger] r[i] == l[i]
            &&& forall|i: int|
                l.len() <= i < r.len() ==> value_ordered(#[trigger] r[i]) && regular_element(
                    pool,
                    kind,
                    enum_type,
                    r[i],
                    depth,
                )
        }),
    decreases s.len(),
{
    if s.len() > 0 {
        if let Ok(b1) = charge(b, element_cost()) {
            if let SingularKind::Scalar(t) = kind {
                lemma_take_scalar(t, s);
            }
            if let Ok(p) = take_packed(kind, number, s) {
                if p.1.len() < s.len() {
                    let l1 = l.push(p.0);
                    lemma_packed(pool, kind, enum_type, number, l1, p.1, b1, depth);
                    let r = merge_packed(kind, number, l1, p.1, b1).0;
                    assert(r[l.len() as int] == p.0) by {
                        assert(r[l.len() as int] == l1[l.len() as int]);
                    }
                    assert(value_ordered(p.0)) by {
                        if let SingularKind::Scalar(t) = kind {
                            assert(scalar_fits(t, p.0));
                        }
                    }
                    assert forall|i: int| 0 <= i < l.len() implies #[trigger] r[i] == l[i] by {
                        assert(r[i] == l1[i]);
                    }
                }
            }
        }
    }
}

/// Numbers of a closed enum that are not declared are kept, the others are
/// collected.
proof fn lemma_packed_closed(
    m: MessageModel,
    number: u32,
    e: EnumIndex,
    known: Seq<ValueModel>,
    s: Seq<u8>,
    b: Budget,
    depth: nat,
)
    requires
        1 <= number <= MAX_FIELD_NUMBER,
        field_of(m.pool, m.index, number) matches Some(fd) && fd.kind == FieldKind::List(
            SingularKind::Enum(e),
        ) && enum_is_closed(m.pool, e, fd.enum_type),
        forall|i: int|
            0 <= i < known.len() ==> (#[trigger] known[i] matches ValueModel::EnumNumber(n)
                && enum_knows(m.pool, e, Some(EnumType::Closed), n)),
    ensures
        keeps(m, merge_packed_closed(m, number, e, known, s, b).0, depth),
        merge_packed_closed(m, number, e, known, s, b).1 matches Ok(r) ==> forall|i: int|
            0 <= i < r.0.len() ==> (#[trigger] r.0[i] matches ValueModel::EnumNumber(n)
                && enum_knows(m.pool, e, Some(EnumType::Closed), n)),
    decreases s.len(),
{
    if s.len() > 0 {
        if let Ok(p) = take_int32(s) {
            if p.1.len() < s.len() {
                if enum_knows(m.pool, e, Some(EnumType::Closed), p.0) {
                    if let Ok(b1) = charge(b, element_cost()) {
                        lemma_packed_closed(
                            m,
                            number,
                            e,
                            known.push(ValueModel::EnumNumber(p.0)),
                            p.1,
                            b1,
                            depth,
                        );
                    }
                } else {
                    lemma_keep_number(m, number, p.0, p.1, depth, b);
                    if let (m1, Ok(r)) = keep_number(m, number, p.0, p.1, b) {
                        lemma_packed_closed(m1, number, e, known, p.1, r.1, depth);
                        lemma_keeps_both(
                            m,
                            m1,
                            merge_packed_closed(m1, number, e, known, p.1, r.1).0,
                            depth,
                        );
                    }
                }
            }
        }
    }
}

/// Keeping a number that a closed enum does not declare.
proof fn lemma_keep_number(
    m: MessageModel,
    number: u32,
    raw: i32,
    rest: Seq<u8>,
    depth: nat,
    b: Budget,
)
    requires
        1 <= number <= MAX_FIELD_NUMBER,
        field_of(m.pool, m.index, number) matches Some(fd) && match fd.kind {
            FieldKind::Singular(SingularKind::Enum(e)) => !enum_knows(m.pool, e, fd.enum_type, raw),
            FieldKind::List(SingularKind::Enum(e)) => enum_is_closed(m.pool, e, fd.enum_type)
                && !enum_knows(m.pool, e, Some(EnumType::Closed), raw),
            _ => false,
        },
    ensures
        keeps(m, keep_number(m, number, raw, rest, b).0, depth),
{
    lemma_number_forms(raw);
    let e = UnknownEntry { number, data: UnknownPayload::Varint(wrap64(raw as int) as u64) };
    lemma_keep_unknown(m, e, rest, depth, b);
}

proof fn lemma_add_known(
    m: MessageModel,
    number: u32,
    e: EnumIndex,
    known: Seq<ValueModel>,
    depth: nat,
)
    requires
        field_of(m.pool, m.index, number) matches Some(fd) && fd.kind == FieldKind::List(
            SingularKind::Enum(e),
        ),
        forall|i: int|
            0 <= i < known.len() ==> (#[trigger] known[i] matches ValueModel::EnumNumber(n)
                && enum_knows(m.pool, e, Some(EnumType::Closed), n)),
    ensures
        keeps(m, add_known(m, number, known), depth),
{
    let k = SingularKind::Enum(e);
    let fd = field_of(m.pool, m.index, number)->Some_0;
    lemma_list_at(m, number, k, depth);
    let l = list_at(m.fields, number);
    let more = l + known;
    assert forall|i: int| l.len() <= i < more.len() implies value_ordered(#[trigger] more[i])
        && regular_element(m.pool, k, fd.enum_type, more[i], depth) by {
        assert(more[i] == known[i - l.len()]);
    }
    if loosely_ordered(m) {
        assert forall|i: int| 0 <= i < more.len() implies value_ordered(#[trigger] more[i]) by {
            if i < l.len() {
                assert(more[i] == l[i]);
            }
        }
    }
    if pool_linked(m.pool) && regular(m, depth) {
        assert forall|i: int| 0 <= i < more.len() implies regular_element(
            m.pool,
            k,
            fd.enum_type,
            #[trigger] more[i],
            depth,
        ) by {
            if i < l.len() {
                assert(more[i] == l[i]);
            }
        }
    }
    lemma_put_list(m, number, k, more, depth);
}

proof fn lemma_closed_list(
    m: MessageModel,
    number: u32,
    e: EnumIndex,
    tag: Tag,
    s: Seq<u8>,
    depth: nat,
    b: Budget,
)
    requires
        1 <= number <= MAX_FIELD_NUMBER,
        field_of(m.pool, m.index, number) matches Some(fd) && fd.kind == FieldKind::List(
            SingularKind::Enum(e),
        ) && enum_is_closed(m.pool, e, fd.enum_type),
    ensures
        keeps(m, merge_closed_list(m, number, e, tag, s, b).0, depth),
{
    if tag.wire_type == WireType::LengthDelimited {
        if let Ok(p) = take_delimited(s) {
            let none = Seq::<ValueModel>::empty();
            lemma_packed_closed(m, number, e, none, p.0, b, depth);
            if let (m1, Ok(r)) = merge_packed_closed(m, number, e, none, p.0, b) {
                lemma_add_known(m1, number, e, r.0, depth);
                lemma_keeps_both(m, m1, add_known(m1, number, r.0), depth);
            }
        }
    } else if let Ok(p) = take_int32(s) {
        if enum_knows(m.pool, e, Some(EnumType::Closed), p.0) {
            lemma_add_known(m, number, e, seq![ValueModel::EnumNumber(p.0)], depth);
        } else {
            lemma_keep_number(m, number, p.0, p.1, depth, b);
        }
    }
}

/// A key that was read fits its type.
proof fn lemma_key_read(s: ScalarType, tag: Tag, b: Seq<u8>)
    ensures
        take_key(s, tag, b) matches Ok(p) ==> key_fits(s, p.0),
{
    lemma_take_scalar(s, b);
}

/// The key, where there is one, fits the type.
spec fn key_sound(key_type: ScalarType, key: Option<KeyModel>) -> bool {
    key matches Some(k) ==> key_fits(key_type, k)
}

proof fn lemma_closed_entry(
    pool: DescriptorPool,
    key_type: ScalarType,
    e: EnumIndex,
    s: Seq<u8>,
    depth: nat,
    key: Option<KeyModel>,
    value: ClosedValue,
)
    requires
        key_sound(key_type, key),
    ensures
        take_closed_entry(pool, key_type, e, s, depth, key, value) matches Ok(r) ==> key_sound(
            key_type,
            r.0,
        ),
    decreases s.len(),
{
    if s.len() > 0 {
        if let Ok(t) = take_tag(s) {
            if t.0.field_number == 1 {
                lemma_key_read(key_type, t.0, t.1);
                if let Ok(p) = take_key(key_type, t.0, t.1) {
                    if p.1.len() < s.len() {
                        lemma_closed_entry(pool, key_type, e, p.1, depth, Some(p.0), value);
                    }
                }
            } else if t.0.field_number == 2 {
                if let Ok(p) = take_int32(t.1) {
                    if p.1.len() < s.len() {
                        lemma_closed_entry(
                            pool,
                            key_type,
                            e,
                            p.1,
                            depth,
                            key,
                            ClosedValue::Known(p.0),
                        );
                        lemma_closed_entry(
                            pool,
                            key_type,
                            e,
                            p.1,
                            depth,
                            key,
                            ClosedValue::Unknown,
                        );
                    }
                }
            } else if let Ok(rest) = skip_payload(t.0, t.1, depth) {
                if rest.len() < s.len() {
                    lemma_closed_entry(pool, key_type, e, rest, depth, key, value);
                }
            }
        }
    }
}

proof fn lemma_closed_map(
    m: MessageModel,
    number: u32,
    key_type: ScalarType,
    e: EnumIndex,
    s: Seq<u8>,
    depth: nat,
    b: Budget,
)
    requires
        1 <= number <= MAX_FIELD_NUMBER,
        s.len() <= usize::MAX,
        field_of(m.pool, m.index, number) matches Some(fd) && fd.kind == (FieldKind::Mapping {
            key: key_type,
            value: SingularKind::Enum(e),
        }) && enum_is_closed(m.pool, e, fd.enum_type),
    ensures
        keeps(m, merge_closed_map(m, number, key_type, e, s, depth, b).0, depth),
{
    lemma_take_delimited(s);
    if let Ok(p) = take_delimited(s) {
        let none: Option<KeyModel> = None;
        lemma_closed_entry(m.pool, key_type, e, p.0, depth, none, ClosedValue::Absent);
        if let Ok(r) = take_closed_entry(
            m.pool,
            key_type,
            e,
            p.0,
            depth,
            none,
            ClosedValue::Absent,
        ) {
            if r.1 is Unknown {
                let x = UnknownEntry { number, data: UnknownPayload::LengthDelimited(p.0) };
                lemma_keep_unknown(m, x, p.1, depth, b);
            } else {
                if pool_linked(m.pool) && m.index.0 < m.pool.message_seq().len() {
                    lemma_field_of(m.pool, m.index, number);
                }
                let v = ValueModel::EnumNumber(
                    match r.1 {
                        ClosedValue::Known(n) => n,
                        _ => 0,
                    },
                );
                lemma_add_entry(
                    m,
                    number,
                    key_type,
                    SingularKind::Enum(e),
                    or_default(r.0, key_default(key_type)),
                    v,
                    depth,
                );
            }
        }
    }
}

// ── Maps put in order ───────────────────────────────────────────────────────

/// The entry is one of the entries.
pub open spec fn entry_among(e: Seq<(KeyModel, ValueModel)>, x: (KeyModel, ValueModel)) -> bool {
    exists|j: int| 0 <= j < e.len() && #[trigger] e[j] == x
}

proof fn lemma_entry_put_among(e: Seq<(KeyModel, ValueModel)>, k: KeyModel, v: ValueModel)
    ensures
        forall|i: int|
            0 <= i < entry_put(e, k, v).len() ==> #[trigger] entry_put(e, k, v)[i] == (k, v)
                || entry_among(e, entry_put(e, k, v)[i]),
        entry_put(e, k, v).len() > 0,
    decreases e.len(),
{
    let r = entry_put(e, k, v);
    if e.len() > 0 {
        let t = e.drop_last();
        lemma_entry_put_among(t, k, v);
        let u = entry_put(t, k, v);
        assert forall|i: int| 0 <= i < r.len() implies #[trigger] r[i] == (k, v) || entry_among(
            e,
            r[i],
        ) by {
            if r == e.push((k, v)) {
                if i < e.len() {
                    assert(e[i] == r[i]);
                }
            } else if r == t.push((k, v)) {
                if i < t.len() {
                    assert(e[i] == r[i]);
                }
            } else {
                if i < u.len() {
                    assert(u[i] == r[i]);
                    if u[i] != (k, v) {
                        let j = choose|j: int| 0 <= j < t.len() && #[trigger] t[j] == u[i];
                        assert(e[j] == r[i]);
                    }
                } else {
                    assert(e[e.len() - 1] == r[i]);
                }
            }
        }
    }
}

pub proof fn lemma_normal_among(e: Seq<(KeyModel, ValueModel)>)
    ensures
        forall|i: int|
            0 <= i < normal_entries(e).len() ==> entry_among(e, #[trigger] normal_entries(e)[i]),
    decreases e.len(),
{
    if e.len() > 0 {
        let t = e.drop_last();
        let u = normal_entries(t);
        let r = normal_entries(e);
        lemma_normal_among(t);
        lemma_entry_put_among(u, e.last().0, e.last().1);
        assert forall|i: int| 0 <= i < r.len() implies entry_among(e, #[trigger] r[i]) by {
            if r[i] == e.last() {
                assert(e[e.len() - 1] == r[i]);
            } else {
                let j = choose|j: int| 0 <= j < u.len() && #[trigger] u[j] == r[i];
                assert(entry_among(t, u[j]));
                let x = choose|x: int| 0 <= x < t.len() && #[trigger] t[x] == u[j];
                assert(e[x] == r[i]);
            }
        }
    }
}

/// Putting the maps in order.
proof fn lemma_normal(m: MessageModel, depth: nat)
    ensures
        keeps(m, normal_message(m), depth),
        loosely_ordered(m) ==> ordered(normal_message(m)),
{
    let r = normal_message(m);
    if loosely_ordered(m) {
        assert forall|i: int| 0 <= i < r.fields.len() implies value_ordered(
            (#[trigger] r.fields[i]).1,
        ) by {
            assert(value_loose(m.fields[i].1));
            if let ValueModel::Mapping(e) = m.fields[i].1 {
                lemma_normal_entries_sorted(e);
                lemma_normal_among(e);
                let n = normal_entries(e);
                assert forall|j: int| 0 <= j < n.len() implies value_ordered(
                    (#[trigger] n[j]).1,
                ) by {
                    assert(entry_among(e, n[j]));
                    let x = choose|x: int| 0 <= x < e.len() && #[trigger] e[x] == n[j];
                    assert(value_ordered(e[x].1));
                }
            }
        }
        assert(fields_sorted(r.fields)) by {
            assert forall|i: int, j: int| 0 <= i < j < r.fields.len() implies (
            #[trigger] r.fields[i]).0 < (#[trigger] r.fields[j]).0 by {
                assert(m.fields[i].0 < m.fields[j].0);
            }
        }
        assert(ordered(r));
        lemma_ordered_loosely(r);
    }
    if pool_linked(m.pool) && regular(m, depth) {
        assert(fields_sorted(r.fields)) by {
            assert forall|i: int, j: int| 0 <= i < j < r.fields.len() implies (
            #[trigger] r.fields[i]).0 < (#[trigger] r.fields[j]).0 by {
                assert(m.fields[i].0 < m.fields[j].0);
            }
        }
        assert(exclusive(r)) by {
            assert forall|i: int, j: int|
                #![trigger r.fields[i], r.fields[j]]
                0 <= i < r.fields.len() && 0 <= j < r.fields.len() && i
                    != j implies !shares_oneof(
                r.pool,
                r.index,
                r.fields[j].0,
                r.fields[i].0,
            ) by {
                assert(m.fields[i].0 == r.fields[i].0 && m.fields[j].0 == r.fields[j].0);
            }
        }
        assert forall|i: int| 0 <= i < r.fields.len() implies regular_field(
            r.pool,
            r.index,
            #[trigger] r.fields[i],
            depth,
        ) by {
            assert(regular_field(m.pool, m.index, m.fields[i], depth));
            if let ValueModel::Mapping(e) = m.fields[i].1 {
                lemma_normal_among(e);
                let n = normal_entries(e);
                if let FieldKind::Mapping { key, value } = field_of(
                    m.pool,
                    m.index,
                    m.fields[i].0,
                )->Some_0.kind {
                    assert forall|j: int| 0 <= j < n.len() implies key_fits(
                        key,
                        (#[trigger] n[j]).0,
                    ) && regular_held(m.pool, value, n[j].1, depth) by {
                        assert(entry_among(e, n[j]));
                        let x = choose|x: int| 0 <= x < e.len() && #[trigger] e[x] == n[j];
                        assert(key_fits(key, e[x].0));
                    }
                }
            }
        }
        assert forall|i: int| 0 <= i < r.unknown.len() implies stays_unknown(
            r,
            #[trigger] r.unknown[i],
            depth,
        ) by {
            assert(stays_unknown(m, m.unknown[i], depth));
        }
        assert(regular(r, depth));
    }
}

/// A message that is in order is so but for its maps.
pub proof fn lemma_ordered_loosely(m: MessageModel)
    requires
        ordered(m),
    ensures
        loosely_ordered(m),
{
    assert forall|i: int| 0 <= i < m.fields.len() implies value_loose((#[trigger] m.fields[i]).1) by {
        assert(value_ordered(m.fields[i].1));
    }
}

// ── Merging ─────────────────────────────────────────────────────────────────

/// Merging fields keeps what `keeps` says.
pub proof fn lemma_fields_kept(
    m: MessageModel,
    s: Seq<u8>,
    end: Option<u32>,
    depth: nat,
    b: Budget,
)
    requires
        s.len() <= usize::MAX,
    ensures
        keeps(m, merge_fields(m, s, end, depth, b).0, depth),
    decreases depth, s.len(), 4nat,
{
    lemma_take_tag(s);
    if !(end is None && s.len() == 0) {
        if let Ok(t) = take_tag(s) {
            if !(end is Some && t.0.wire_type == WireType::EndGroup) {
                lemma_field_kept(m, t.0, t.1, depth, b);
                if let (m1, Ok(r)) = merge_field(m, t.0, t.1, depth, b) {
                    if r.0.len() < s.len() {
                        lemma_fields_kept(m1, r.0, end, depth, r.1);
                        lemma_keeps_both(
                            m,
                            m1,
                            merge_fields(m1, r.0, end, depth, r.1).0,
                            depth,
                        );
                    }
                }
            }
        }
    }
}

/// Merging a message keeps what `keeps` says, and puts its maps in order.
pub proof fn lemma_message_kept(
    m: MessageModel,
    s: Seq<u8>,
    end: Option<u32>,
    depth: nat,
    b: Budget,
)
    requires
        s.len() <= usize::MAX,
    ensures
        keeps(m, merge_message(m, s, end, depth, b).0, depth),
        loosely_ordered(m) ==> ordered(merge_message(m, s, end, depth, b).0),
    decreases depth, s.len(), 5nat,
{
    lemma_fields_kept(m, s, end, depth, b);
    let r = merge_fields(m, s, end, depth, b).0;
    lemma_normal(r, depth);
    lemma_keeps_both(m, r, normal_message(r), depth);
}

proof fn lemma_body_kept(x: MessageModel, tag: Tag, s: Seq<u8>, depth: nat, b: Budget)
    requires
        s.len() <= usize::MAX,
    ensures
        keeps(x, merge_body(x, tag, s, depth, b).0, depth),
        ordered(x) ==> ordered(merge_body(x, tag, s, depth, b).0),
    decreases depth, s.len(), 6nat,
{
    lemma_take_delimited(s);
    if ordered(x) {
        lemma_ordered_loosely(x);
    }
    match tag.wire_type {
        WireType::LengthDelimited => {
            if let Ok(p) = take_delimited(s) {
                lemma_message_kept(x, p.0, None, depth, b);
            }
        },
        WireType::StartGroup => {
            lemma_message_kept(x, s, Some(tag.field_number), depth, b);
        },
        _ => {},
    }
}

/// An element that was read is in order and fits.
proof fn lemma_element_kept(
    pool: DescriptorPool,
    kind: SingularKind,
    tag: Tag,
    s: Seq<u8>,
    depth: nat,
    b: Budget,
)
    requires
        s.len() <= usize::MAX,
    ensures
        take_element(pool, kind, tag, s, depth, b) matches Ok(r) ==> value_ordered(r.0) && (
        pool_linked(pool) && singular_linked(pool, kind) ==> regular_held(pool, kind, r.0, depth)
            && (kind is Message ==> depth > 0 && r.0->Message_0.pool == pool
            && r.0->Message_0.index == kind->Message_0 && regular(
            r.0->Message_0,
            (depth - 1) as nat,
        ))),
    decreases depth, s.len(), 1nat,
{
    match kind {
        SingularKind::Scalar(t) => {
            lemma_take_scalar(t, s);
        },
        SingularKind::Enum(_) => {},
        SingularKind::Message(i) => {
            if depth > 0 {
                let x = empty_message(pool, i);
                let d = (depth - 1) as nat;
                lemma_body_kept(x, tag, s, d, b);
                assert(ordered(x));
                if pool_linked(pool) && singular_linked(pool, kind) {
                    lemma_empty_regular(pool, i, d);
                }
            }
        },
    }
}

/// A message with nothing set is one that decoding makes.
pub proof fn lemma_empty_regular(pool: DescriptorPool, index: MessageIndex, depth: nat)
    requires
        index.0 < pool.message_seq().len(),
    ensures
        regular(empty_message(pool, index), depth),
        ordered(empty_message(pool, index)),
{
    let x = empty_message(pool, index);
    assert(unknown_sound(x.unknown));
    assert(unknown_depth(x.unknown) == 0);
    assert(exclusive(x));
    assert(regular(x, depth));
}

/// The value that was read so far, if any, is in order and fits.
spec fn value_sound(
    pool: DescriptorPool,
    kind: SingularKind,
    value: Option<ValueModel>,
    depth: nat,
) -> bool {
    value matches Some(v) ==> value_ordered(v) && (pool_linked(pool) && singular_linked(pool, kind)
        ==> regular_held(pool, kind, v, depth))
}

proof fn lemma_entry_kept(
    pool: DescriptorPool,
    key_type: ScalarType,
    kind: SingularKind,
    s: Seq<u8>,
    depth: nat,
    b: Budget,
    key: Option<KeyModel>,
    value: Option<ValueModel>,
)
    requires
        s.len() <= usize::MAX,
        key_sound(key_type, key),
        value_sound(pool, kind, value, depth),
    ensures
        take_entry(pool, key_type, kind, s, depth, b, key, value) matches Ok(r) ==> key_sound(
            key_type,
            r.0,
        ) && value_sound(pool, kind, r.1, depth),
    decreases depth, s.len(), 2nat,
{
    lemma_take_tag(s);
    if s.len() > 0 {
        if let Ok(t) = take_tag(s) {
            if t.0.field_number == 1 {
                lemma_key_read(key_type, t.0, t.1);
                if let Ok(p) = take_key(key_type, t.0, t.1) {
                    if p.1.len() < s.len() {
                        lemma_entry_kept(
                            pool,
                            key_type,
                            kind,
                            p.1,
                            depth,
                            b,
                            Some(p.0),
                            value,
                        );
                    }
                }
            } else if t.0.field_number == 2 {
                lemma_element_kept(pool, kind, t.0, t.1, depth, b);
                if let Ok(r) = take_element(pool, kind, t.0, t.1, depth, b) {
                    if r.1.len() < s.len() {
                        lemma_entry_kept(
                            pool,
                            key_type,
                            kind,
                            r.1,
                            depth,
                            r.2,
                            key,
                            Some(r.0),
                        );
                    }
                }
            } else if let Ok(rest) = skip_payload(t.0, t.1, depth) {
                if rest.len() < s.len() {
                    lemma_entry_kept(pool, key_type, kind, rest, depth, b, key, value);
                }
            }
        }
    }
}

proof fn lemma_list_kept(
    m: MessageModel,
    n: u32,
    kind: SingularKind,
    tag: Tag,
    s: Seq<u8>,
    depth: nat,
    b: Budget,
)
    requires
        s.len() <= usize::MAX,
        1 <= n <= MAX_FIELD_NUMBER,
        field_of(m.pool, m.index, n) matches Some(fd) && fd.kind == FieldKind::List(kind),
    ensures
        keeps(
            m,
            merge_list(
                m,
                n,
                kind,
                field_of(m.pool, m.index, n)->Some_0.enum_type,
                tag,
                s,
                depth,
                b,
            ).0,
            depth,
        ),
    decreases depth, s.len(), 2nat,
{
    let enum_type = field_of(m.pool, m.index, n)->Some_0.enum_type;
    if kind matches SingularKind::Enum(e) && enum_is_closed(m.pool, e, enum_type) {
        lemma_closed_list(m, n, kind->Enum_0, tag, s, depth, b);
    } else {
        let l = list_at(m.fields, n);
        lemma_list_at(m, n, kind, depth);
        lemma_put_list(m, n, kind, l, depth);
        if tag.wire_type == WireType::LengthDelimited && packable(kind) {
            if let Ok(p) = take_delimited(s) {
                lemma_packed(m.pool, kind, enum_type, n, l, p.0, b, depth);
                let l1 = merge_packed(kind, n, l, p.0, b).0;
                if loosely_ordered(m) {
                    assert forall|i: int| 0 <= i < l1.len() implies value_ordered(
                        #[trigger] l1[i],
                    ) by {
                        if i < l.len() {
                            assert(l1[i] == l[i]);
                        }
                    }
                }
                if pool_linked(m.pool) && regular(m, depth) {
                    assert forall|i: int| 0 <= i < l1.len() implies regular_element(
                        m.pool,
                        kind,
                        enum_type,
                        #[trigger] l1[i],
                        depth,
                    ) by {
                        if i < l.len() {
                            assert(l1[i] == l[i]);
                        }
                    }
                }
                lemma_put_list(m, n, kind, l1, depth);
            }
        } else {
            lemma_element_kept(m.pool, kind, tag, s, depth, b);
            if let Ok(r) = take_element(m.pool, kind, tag, s, depth, b) {
                let l1 = l.push(r.0);
                if loosely_ordered(m) {
                    assert forall|i: int| 0 <= i < l1.len() implies value_ordered(
                        #[trigger] l1[i],
                    ) by {
                        if i < l.len() {
                            assert(l1[i] == l[i]);
                        }
                    }
                }
                if pool_linked(m.pool) && regular(m, depth) {
                    lemma_field_of(m.pool, m.index, n);
                    assert(regular_element(m.pool, kind, enum_type, r.0, depth));
                    assert forall|i: int| 0 <= i < l1.len() implies regular_element(
                        m.pool,
                        kind,
                        enum_type,
                        #[trigger] l1[i],
                        depth,
                    ) by {
                        if i < l.len() {
                            assert(l1[i] == l[i]);
                        }
                    }
                }
                lemma_put_list(m, n, kind, l1, depth);
            }
        }
    }
}

proof fn lemma_map_kept(
    m: MessageModel,
    n: u32,
    key_type: ScalarType,
    kind: SingularKind,
    s: Seq<u8>,
    depth: nat,
    b: Budget,
)
    requires
        s.len() <= usize::MAX,
        1 <= n <= MAX_FIELD_NUMBER,
        field_of(m.pool, m.index, n) matches Some(fd) && fd.kind == (FieldKind::Mapping {
            key: key_type,
            value: kind,
        }),
    ensures
        keeps(
            m,
            merge_map(
                m,
                n,
                key_type,
                kind,
                field_of(m.pool, m.index, n)->Some_0.enum_type,
                s,
                depth,
                b,
            ).0,
            depth,
        ),
    decreases depth, s.len(), 2nat,
{
    lemma_take_delimited(s);
    let enum_type = field_of(m.pool, m.index, n)->Some_0.enum_type;
    if kind matches SingularKind::Enum(e) && enum_is_closed(m.pool, e, enum_type) {
        lemma_closed_map(m, n, key_type, kind->Enum_0, s, depth, b);
    } else if let Ok(p) = take_delimited(s) {
        lemma_entry_kept(m.pool, key_type, kind, p.0, depth, b, None, None);
        if let Ok(r) = take_entry(m.pool, key_type, kind, p.0, depth, b, None, None) {
            let k = or_default(r.0, key_default(key_type));
            let v = or_default(r.1, element_default(kind, m.pool));
            assert(value_ordered(v)) by {
                if r.1 is None {
                    if let SingularKind::Message(i) = kind {
                        assert(ordered(empty_message(m.pool, i)));
                    }
                }
            }
            if pool_linked(m.pool) && regular(m, depth) {
                lemma_field_of(m.pool, m.index, n);
            }
            lemma_add_entry(m, n, key_type, kind, k, v, depth);
        }
    }
}

/// Merging into the message that a field holds.
proof fn lemma_existing_kept(
    m: MessageModel,
    n: u32,
    tag: Tag,
    s: Seq<u8>,
    depth: nat,
    b: Budget,
)
    requires
        s.len() <= usize::MAX,
        1 <= n <= MAX_FIELD_NUMBER,
        field_of(m.pool, m.index, n) matches Some(fd) && (fd.kind matches FieldKind::Singular(k)
            && k is Message),
        field_get(m.fields, n) matches Some(ValueModel::Message(_)),
    ensures
        keeps(
            m,
            merge_existing(
                clear_oneof(m, field_of(m.pool, m.index, n)->Some_0.oneof_index, n),
                n,
                tag,
                s,
                depth,
                b,
            ).0,
            depth,
        ),
    decreases depth, s.len(), 2nat,
{
    let fd = field_of(m.pool, m.index, n)->Some_0;
    let c = clear_oneof(m, fd.oneof_index, n);
    let v = field_get(m.fields, n)->Some_0;
    let x = v->Message_0;
    lemma_clear_get(m, fd.oneof_index, n);
    lemma_get_among(m.fields, n);
    let y = choose|y: int| 0 <= y < m.fields.len() && #[trigger] m.fields[y] == (n, v);
    if loosely_ordered(m) {
        assert(value_loose(m.fields[y].1));
    }
    if pool_linked(m.pool) && regular(m, depth) {
        assert(regular_field(m.pool, m.index, m.fields[y], depth));
    }
    if depth == 0 {
        lemma_put(m, n, v, depth);
        lemma_put_same(c.fields, n);
        assert(with_field(c, n, v) == c);
    } else {
        let d = (depth - 1) as nat;
        lemma_body_kept(x, tag, s, d, b);
        let r = merge_body(x, tag, s, d, b).0;
        lemma_put(m, n, ValueModel::Message(r), depth);
    }
}

/// Clearing a oneof leaves the field to be kept as it is.
pub proof fn lemma_clear_get(m: MessageModel, oneof: Option<u16>, keep: u32)
    ensures
        field_get(clear_oneof(m, oneof, keep).fields, keep) == field_get(m.fields, keep),
{
    let md = m.pool.message_seq()[m.index.0 as int];
    if let Some(oi) = oneof {
        if oi < md.oneofs@.len() {
            lemma_clear_members_get(
                m.fields,
                md.fields@,
                md.oneofs@[oi as int].field_indices@,
                keep,
                0,
            );
        }
    }
}

proof fn lemma_clear_members_get(
    fields: Seq<(u32, ValueModel)>,
    declared: Seq<FieldDescriptor>,
    members: Seq<u16>,
    keep: u32,
    i: nat,
)
    ensures
        field_get(clear_members(fields, declared, members, keep, i), keep) == field_get(
            fields,
            keep,
        ),
    decreases members.len() - i,
{
    if i < members.len() {
        let k = members[i as int] as int;
        if k < declared.len() && declared[k].number != keep {
            lemma_del_get(fields, declared[k].number, keep);
            lemma_clear_members_get(
                field_del(fields, declared[k].number),
                declared,
                members,
                keep,
                i + 1,
            );
        } else {
            lemma_clear_members_get(fields, declared, members, keep, i + 1);
        }
    }
}

/// Deleting a field leaves the others as they are.
pub proof fn lemma_del_get(fields: Seq<(u32, ValueModel)>, n: u32, k: u32)
    requires
        k != n,
    ensures
        field_get(field_del(fields, n), k) == field_get(fields, k),
    decreases fields.len(),
{
    if fields.len() > 0 {
        let t = fields.drop_last();
        lemma_del_get(t, n, k);
        if fields.last().0 != n {
            assert(field_del(t, n).push(fields.last()).drop_last() =~= field_del(t, n));
        }
    }
}

proof fn lemma_field_kept(m: MessageModel, tag: Tag, s: Seq<u8>, depth: nat, b: Budget)
    requires
        s.len() <= usize::MAX,
        1 <= tag.field_number <= MAX_FIELD_NUMBER,
    ensures
        keeps(m, merge_field(m, tag, s, depth, b).0, depth),
    decreases depth, s.len(), 3nat,
{
    let n = tag.field_number;
    match field_of(m.pool, m.index, n) {
        None => {
            lemma_merge_unknown(m, tag, s, depth, b);
        },
        Some(fd) => {
            if !wire_admits(fd.kind, tag.wire_type) {
                lemma_merge_unknown(m, tag, s, depth, b);
            } else {
                match fd.kind {
                    FieldKind::Singular(SingularKind::Enum(e)) => {
                        if let Ok(p) = take_int32(s) {
                            if !enum_knows(m.pool, e, fd.enum_type, p.0) {
                                lemma_keep_number(m, n, p.0, p.1, depth, b);
                            } else {
                                lemma_put(m, n, ValueModel::EnumNumber(p.0), depth);
                            }
                        }
                    },
                    FieldKind::Singular(k) => {
                        if k is Message && field_get(m.fields, n) matches Some(
                            ValueModel::Message(_),
                        ) {
                            lemma_existing_kept(m, n, tag, s, depth, b);
                        } else {
                            lemma_element_kept(m.pool, k, tag, s, depth, b);
                            if let Ok(r) = take_element(m.pool, k, tag, s, depth, b) {
                                if pool_linked(m.pool) && regular(m, depth) {
                                    lemma_field_of(m.pool, m.index, n);
                                }
                                lemma_put(m, n, r.0, depth);
                            }
                        }
                    },
                    FieldKind::List(k) => {
                        lemma_list_kept(m, n, k, tag, s, depth, b);
                    },
                    FieldKind::Mapping { key, value } => {
                        lemma_map_kept(m, n, key, value, s, depth, b);
                    },
                }
            }
        },
    }
}

} // verus!
