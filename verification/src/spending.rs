//! What a message cost to read covers what it costs to read it again: nothing
//! is kept that was not paid for.
use vstd::prelude::*;
use crate::decode::{decoded, full_budget, DecodeOptions};
use crate::descriptor::{
    enum_is_closed, enum_knows, field_of, DescriptorPool, EnumIndex, EnumType, FieldDescriptor,
    FieldKind, MessageIndex, ScalarType, SingularKind,
};
use crate::map::{entry_put, normal_entries};
use crate::merge::{
    add_entry, add_known, charge, clear_members, clear_oneof, element_cost, element_default,
    entry_cost, keep_number, merge_body, merge_closed_list, merge_closed_map, merge_existing,
    merge_field, merge_fields, merge_list, merge_map, merge_packed, merge_packed_closed,
    merge_unknown, normal_fields, normal_message, normal_value, or_default, take_closed_entry,
    take_element, take_entry, take_packed, with_unknown, Budget, ClosedValue,
};
use crate::roundtrip::{
    entries_cost, fields_cost, items_cost, message_cost, plus, settled, settled_element,
    settled_field, settled_value, shown_in, stored_cost, strays, value_cost, Cost,
};
use crate::scalar::{key_default, packable, take_int32, take_key, wire_admits};
use crate::unknown::{
    entry_slots, take_group, take_payload, unknown_slots, UnknownEntry, UnknownPayload,
};
use crate::value::{
    empty_message, field_del, field_get, field_insert, field_replace, list_at, map_at, with_field,
    KeyModel, MessageModel, ValueModel,
};
use crate::wire::{
    lemma_take_delimited, lemma_take_tag, take_delimited, take_tag, DecodeError, Tag, WireType,
};

verus! {

// ── What is held ────────────────────────────────────────────────────────────

/// Nothing.
pub open spec fn no_cost() -> Cost {
    Cost { slots: 0, memory: 0 }
}

/// The unknown fields that the message holds, and the memory for the elements
/// of its lists and maps, however deep; whether they are written or not.
pub open spec fn held(m: MessageModel) -> Cost
    decreases m,
{
    plus(held_fields(m.fields), Cost { slots: unknown_slots(m.unknown), memory: 0 })
}

/// What the fields hold.
pub open spec fn held_fields(fields: Seq<(u32, ValueModel)>) -> Cost
    decreases fields,
{
    if fields.len() == 0 {
        no_cost()
    } else {
        plus(held_fields(fields.drop_last()), held_value(fields[fields.len() - 1].1))
    }
}

/// What the value holds.
pub open spec fn held_value(v: ValueModel) -> Cost
    decreases v,
{
    match v {
        ValueModel::Message(m) => held(m),
        ValueModel::List(l) => held_items(l),
        ValueModel::Mapping(e) => held_entries(e),
        _ => no_cost(),
    }
}

/// What the elements of a list hold, and what they take.
pub open spec fn held_items(l: Seq<ValueModel>) -> Cost
    decreases l,
{
    if l.len() == 0 {
        no_cost()
    } else {
        plus(
            held_items(l.drop_last()),
            plus(held_value(l[l.len() - 1]), Cost { slots: 0, memory: element_cost() }),
        )
    }
}

/// What the entries of a map hold, and what they take.
pub open spec fn held_entries(e: Seq<(KeyModel, ValueModel)>) -> Cost
    decreases e,
{
    if e.len() == 0 {
        no_cost()
    } else {
        plus(
            held_entries(e.drop_last()),
            plus(held_value(e[e.len() - 1].1), Cost { slots: 0, memory: entry_cost() }),
        )
    }
}

/// No more than the other.
pub open spec fn at_most(a: Cost, b: Cost) -> bool {
    a.slots <= b.slots && a.memory <= b.memory
}

proof fn lemma_fields_front(fields: Seq<(u32, ValueModel)>)
    requires
        fields.len() > 0,
    ensures
        held_fields(fields) == plus(
            held_value(fields[0].1),
            held_fields(fields.subrange(1, fields.len() as int)),
        ),
    decreases fields.len(),
{
    let t = fields.subrange(1, fields.len() as int);
    if fields.len() > 1 {
        let d = fields.drop_last();
        lemma_fields_front(d);
        assert(d.subrange(1, d.len() as int) =~= t.drop_last());
        assert(t[t.len() - 1] == fields[fields.len() - 1]);
        assert(d[0] == fields[0]);
    } else {
        assert(held_fields(fields.drop_last()) == no_cost());
        assert(held_fields(t) == no_cost());
    }
}

proof fn lemma_items_front(l: Seq<ValueModel>)
    requires
        l.len() > 0,
    ensures
        held_items(l) == plus(
            plus(held_value(l[0]), Cost { slots: 0, memory: element_cost() }),
            held_items(l.subrange(1, l.len() as int)),
        ),
    decreases l.len(),
{
    let t = l.subrange(1, l.len() as int);
    if l.len() > 1 {
        let d = l.drop_last();
        lemma_items_front(d);
        assert(d.subrange(1, d.len() as int) =~= t.drop_last());
        assert(t[t.len() - 1] == l[l.len() - 1]);
        assert(d[0] == l[0]);
    } else {
        assert(held_items(l.drop_last()) == no_cost());
        assert(held_items(t) == no_cost());
    }
}

proof fn lemma_entries_front(e: Seq<(KeyModel, ValueModel)>)
    requires
        e.len() > 0,
    ensures
        held_entries(e) == plus(
            plus(held_value(e[0].1), Cost { slots: 0, memory: entry_cost() }),
            held_entries(e.subrange(1, e.len() as int)),
        ),
    decreases e.len(),
{
    let t = e.subrange(1, e.len() as int);
    if e.len() > 1 {
        let d = e.drop_last();
        lemma_entries_front(d);
        assert(d.subrange(1, d.len() as int) =~= t.drop_last());
        assert(t[t.len() - 1] == e[e.len() - 1]);
        assert(d[0] == e[0]);
    } else {
        assert(held_entries(e.drop_last()) == no_cost());
        assert(held_entries(t) == no_cost());
    }
}

/// No more memory than the other, and no more slots either where `all` holds.
spec fn within_cost(a: Cost, b: Cost, all: bool) -> bool {
    a.memory <= b.memory && (all ==> a.slots <= b.slots)
}

/// What reading a message costs is no more than what it holds; but the entries
/// that stray take slots.
proof fn lemma_cost_held(m: MessageModel)
    ensures
        within_cost(message_cost(m), held(m), settled(m)),
    decreases m, 0nat,
{
    assert(decreases_to!(m => m.fields));
    if settled(m) {
        lemma_fields_cost_held(m.pool, m.index, m.fields, true);
    } else {
        lemma_fields_cost_held(m.pool, m.index, m.fields, false);
    }
}

proof fn lemma_fields_cost_held(
    pool: DescriptorPool,
    index: MessageIndex,
    fields: Seq<(u32, ValueModel)>,
    all: bool,
)
    requires
        all ==> forall|i: int|
            0 <= i < fields.len() ==> settled_field(pool, index, #[trigger] fields[i]),
    ensures
        within_cost(fields_cost(pool, index, fields), held_fields(fields), all),
    decreases fields, 0nat,
{
    if fields.len() > 0 {
        let t = fields.subrange(1, fields.len() as int);
        assert(decreases_to!(fields => t));
        assert(decreases_to!(fields => fields[0]));
        assert(decreases_to!(fields[0] => fields[0].1));
        lemma_fields_front(fields);
        assert(all ==> settled_field(pool, index, fields[0]));
        if shown_in(pool, index, fields[0]) {
            let fd = field_of(pool, index, fields[0].0)->Some_0;
            lemma_stored_cost_held(pool, fd.kind, fd.enum_type, fields[0].1, all);
        }
        lemma_fields_cost_held(pool, index, t, all);
    }
}

proof fn lemma_stored_cost_held(
    pool: DescriptorPool,
    kind: FieldKind,
    enum_type: Option<EnumType>,
    v: ValueModel,
    all: bool,
)
    requires
        all ==> settled_value(pool, kind, enum_type, v),
    ensures
        within_cost(stored_cost(pool, kind, enum_type, v), held_value(v), all),
    decreases v, 1nat,
{
    match (kind, v) {
        (FieldKind::Mapping { key, value }, ValueModel::Mapping(e)) => {
            assert(decreases_to!(v => v->Mapping_0));
            lemma_entries_cost_held(pool, value, enum_type, e, all);
        },
        (_, ValueModel::List(l)) => {
            assert(decreases_to!(v => v->List_0));
            lemma_items_cost_held(l, all);
        },
        _ => {
            lemma_value_cost_held(v, all);
        },
    }
}

proof fn lemma_value_cost_held(v: ValueModel, all: bool)
    requires
        all ==> settled_element(v),
    ensures
        within_cost(value_cost(v), held_value(v), all),
    decreases v, 0nat,
{
    if let ValueModel::Message(m) = v {
        assert(decreases_to!(v => v->Message_0));
        lemma_cost_held(m);
    }
}

proof fn lemma_items_cost_held(l: Seq<ValueModel>, all: bool)
    requires
        all ==> forall|i: int| 0 <= i < l.len() ==> settled_element(#[trigger] l[i]),
    ensures
        within_cost(items_cost(l), held_items(l), all),
    decreases l, 0nat,
{
    if l.len() > 0 {
        let t = l.subrange(1, l.len() as int);
        assert(decreases_to!(l => t));
        assert(decreases_to!(l => l[0]));
        lemma_items_front(l);
        assert(all ==> settled_element(l[0]));
        lemma_value_cost_held(l[0], all);
        lemma_items_cost_held(t, all);
    }
}

proof fn lemma_entries_cost_held(
    pool: DescriptorPool,
    kind: SingularKind,
    enum_type: Option<EnumType>,
    e: Seq<(KeyModel, ValueModel)>,
    all: bool,
)
    requires
        all ==> forall|i: int|
            0 <= i < e.len() ==> !strays(pool, kind, enum_type, (#[trigger] e[i]).1)
                && settled_element(e[i].1),
    ensures
        within_cost(entries_cost(pool, kind, enum_type, e), held_entries(e), all),
    decreases e, 0nat,
{
    if e.len() > 0 {
        let t = e.subrange(1, e.len() as int);
        assert(decreases_to!(e => t));
        assert(decreases_to!(e => e[0]));
        assert(decreases_to!(e[0] => e[0].1));
        lemma_entries_front(e);
        assert(all ==> !strays(pool, kind, enum_type, e[0].1) && settled_element(e[0].1));
        lemma_value_cost_held(e[0].1, all);
        lemma_entries_cost_held(pool, kind, enum_type, t, all);
    }
}

// ── Small changes ───────────────────────────────────────────────────────────

/// What field `n` holds.
spec fn held_at(fields: Seq<(u32, ValueModel)>, n: u32) -> Cost {
    match field_get(fields, n) {
        Some(v) => held_value(v),
        None => no_cost(),
    }
}

proof fn lemma_push_held(fields: Seq<(u32, ValueModel)>, f: (u32, ValueModel))
    ensures
        held_fields(fields.push(f)) == plus(held_fields(fields), held_value(f.1)),
{
    assert(fields.push(f).drop_last() =~= fields);
}

proof fn lemma_change_held(fields: Seq<(u32, ValueModel)>, n: u32, v: ValueModel)
    ensures
        held_fields(field_insert(fields, n, v)) == plus(held_fields(fields), held_value(v)),
        field_get(fields, n) is Some ==> plus(
            held_fields(field_replace(fields, n, v)),
            held_at(fields, n),
        ) == plus(held_fields(fields), held_value(v)),
        at_most(held_fields(field_del(fields, n)), held_fields(fields)),
        at_most(held_at(fields, n), held_fields(fields)),
    decreases fields.len(),
{
    if fields.len() > 0 {
        let t = fields.drop_last();
        lemma_change_held(t, n, v);
        lemma_push_held(field_insert(t, n, v), fields.last());
        lemma_push_held(field_replace(t, n, v), fields.last());
        lemma_push_held(field_del(t, n), fields.last());
        lemma_push_held(t, (n, v));
    }
    lemma_push_held(fields, (n, v));
}

proof fn lemma_put_held(m: MessageModel, n: u32, v: ValueModel)
    ensures
        plus(held(with_field(m, n, v)), held_at(m.fields, n)) == plus(held(m), held_value(v)),
        at_most(held_at(m.fields, n), held(m)),
{
    lemma_change_held(m.fields, n, v);
}

proof fn lemma_clear_members_held(
    fields: Seq<(u32, ValueModel)>,
    declared: Seq<FieldDescriptor>,
    members: Seq<u16>,
    keep: u32,
    i: nat,
)
    ensures
        at_most(
            held_fields(clear_members(fields, declared, members, keep, i)),
            held_fields(fields),
        ),
    decreases members.len() - i,
{
    if i < members.len() {
        let k = members[i as int] as int;
        if k < declared.len() && declared[k].number != keep {
            let n = declared[k].number;
            lemma_change_held(fields, n, ValueModel::Bool(false));
            lemma_clear_members_held(field_del(fields, n), declared, members, keep, i + 1);
        } else {
            lemma_clear_members_held(fields, declared, members, keep, i + 1);
        }
    }
}

proof fn lemma_clear_held(m: MessageModel, oneof: Option<u16>, keep: u32)
    ensures
        at_most(held(clear_oneof(m, oneof, keep)), held(m)),
{
    let md = m.pool.message_seq()[m.index.0 as int];
    if let Some(oi) = oneof {
        if oi < md.oneofs@.len() {
            lemma_clear_members_held(
                m.fields,
                md.fields@,
                md.oneofs@[oi as int].field_indices@,
                keep,
                0,
            );
        }
    }
}

proof fn lemma_items_push(l: Seq<ValueModel>, v: ValueModel)
    ensures
        held_items(l.push(v)) == plus(
            held_items(l),
            plus(held_value(v), Cost { slots: 0, memory: element_cost() }),
        ),
{
    assert(l.push(v).drop_last() =~= l);
}

proof fn lemma_entries_push(e: Seq<(KeyModel, ValueModel)>, k: KeyModel, v: ValueModel)
    ensures
        held_entries(e.push((k, v))) == plus(
            held_entries(e),
            plus(held_value(v), Cost { slots: 0, memory: entry_cost() }),
        ),
{
    assert(e.push((k, v)).drop_last() =~= e);
}

proof fn lemma_entry_put_held(s: Seq<(KeyModel, ValueModel)>, k: KeyModel, v: ValueModel)
    ensures
        at_most(
            held_entries(entry_put(s, k, v)),
            plus(
                held_entries(s),
                plus(held_value(v), Cost { slots: 0, memory: entry_cost() }),
            ),
        ),
    decreases s.len(),
{
    lemma_entries_push(s, k, v);
    if s.len() > 0 {
        let t = s.drop_last();
        lemma_entries_push(t, k, v);
        lemma_entry_put_held(t, k, v);
        lemma_entries_push(entry_put(t, k, v), s.last().0, s.last().1);
    }
}

proof fn lemma_normal_entries_held(e: Seq<(KeyModel, ValueModel)>)
    ensures
        at_most(held_entries(normal_entries(e)), held_entries(e)),
    decreases e.len(),
{
    if e.len() > 0 {
        lemma_normal_entries_held(e.drop_last());
        lemma_entry_put_held(normal_entries(e.drop_last()), e.last().0, e.last().1);
    }
}

proof fn lemma_normal_fields_held(fields: Seq<(u32, ValueModel)>)
    ensures
        at_most(held_fields(normal_fields(fields)), held_fields(fields)),
    decreases fields.len(),
{
    if fields.len() > 0 {
        let f = normal_fields(fields);
        assert(f.drop_last() =~= normal_fields(fields.drop_last()));
        lemma_normal_fields_held(fields.drop_last());
        if let ValueModel::Mapping(e) = fields.last().1 {
            lemma_normal_entries_held(e);
        }
        let v = fields[fields.len() - 1].1;
        assert(f[f.len() - 1].1 == normal_value(v));
        assert(at_most(held_value(normal_value(v)), held_value(v)));
    }
}

proof fn lemma_normal_held(m: MessageModel)
    ensures
        at_most(held(normal_message(m)), held(m)),
{
    lemma_normal_fields_held(m.fields);
}

proof fn lemma_slots_push(us: Seq<UnknownEntry>, e: UnknownEntry)
    ensures
        unknown_slots(us.push(e)) == unknown_slots(us) + entry_slots(e),
    decreases us.len(),
{
    let all = us.push(e);
    let rest = all.subrange(1, all.len() as int);
    if us.len() == 0 {
        assert(rest =~= Seq::empty());
        assert(unknown_slots(rest) == 0);
    } else {
        let t = us.subrange(1, us.len() as int);
        assert(rest =~= t.push(e));
        lemma_slots_push(t, e);
    }
}

proof fn lemma_unknown_held(m: MessageModel, e: UnknownEntry)
    ensures
        held(with_unknown(m, e)) == plus(held(m), Cost { slots: entry_slots(e), memory: 0 }),
{
    lemma_slots_push(m.unknown, e);
}

proof fn lemma_payload_slots(tag: Tag, s: Seq<u8>, depth: nat, slots: nat)
    ensures
        take_payload(tag, s, depth, Some(slots)) matches Ok(p) ==> p.2 is Some && p.2->Some_0
            + entry_slots(UnknownEntry { number: tag.field_number, data: p.0 }) == slots,
    decreases depth, s.len(), 0nat,
{
    if take_payload(tag, s, depth, Some(slots)) is Ok && tag.wire_type == WireType::StartGroup {
        lemma_group_slots(tag.field_number, s, (depth - 1) as nat, (slots - 1) as nat);
    }
}

proof fn lemma_group_slots(number: u32, s: Seq<u8>, depth: nat, slots: nat)
    ensures
        take_group(number, s, depth, Some(slots)) matches Ok(p) ==> p.2 is Some && p.2->Some_0
            + unknown_slots(p.0) == slots,
    decreases depth, s.len(), 1nat,
{
    lemma_take_tag(s);
    if let Ok(g) = take_group(number, s, depth, Some(slots)) {
        let t = take_tag(s)->Ok_0;
        if t.0.wire_type != WireType::EndGroup {
            lemma_payload_slots(t.0, t.1, depth, slots);
            let p = take_payload(t.0, t.1, depth, Some(slots))->Ok_0;
            lemma_group_slots(number, p.1, depth, p.2->Some_0);
            let more = take_group(number, p.1, depth, p.2)->Ok_0;
            assert(g.0.subrange(1, g.0.len() as int) =~= more.0);
        } else {
            assert(unknown_slots(g.0) == 0);
        }
    }
}

// ── What is spent ───────────────────────────────────────────────────────────

/// What `m1` holds and `m` does not was taken from the budget.
spec fn paid(m: Cost, b: Budget, m1: Cost, b1: Budget) -> bool {
    &&& m1.slots + b1.unknown <= m.slots + b.unknown
    &&& m1.memory + b1.elements <= m.memory + b.elements
}

/// What the step adds to the message was taken from the budget.
spec fn step_paid(
    m: MessageModel,
    b: Budget,
    r: (MessageModel, Result<(Seq<u8>, Budget), DecodeError>),
) -> bool {
    r.1 matches Ok(l) ==> paid(held(m), b, held(r.0), l.1)
}

proof fn lemma_packed_paid(
    kind: SingularKind,
    n: u32,
    l: Seq<ValueModel>,
    s: Seq<u8>,
    b: Budget,
)
    ensures
        merge_packed(kind, n, l, s, b).1 matches Ok(b1) ==> paid(
            held_items(l),
            b,
            held_items(merge_packed(kind, n, l, s, b).0),
            b1,
        ),
    decreases s.len(),
{
    if s.len() > 0 && merge_packed(kind, n, l, s, b).1 is Ok {
        let b1 = charge(b, element_cost())->Ok_0;
        let p = take_packed(kind, n, s)->Ok_0;
        lemma_items_push(l, p.0);
        assert(held_value(p.0) == no_cost());
        lemma_packed_paid(kind, n, l.push(p.0), p.1, b1);
    }
}

proof fn lemma_packed_closed_paid(
    m: MessageModel,
    n: u32,
    e: EnumIndex,
    known: Seq<ValueModel>,
    s: Seq<u8>,
    b: Budget,
)
    ensures
        merge_packed_closed(m, n, e, known, s, b).1 matches Ok(r) ==> paid(
            plus(held(m), held_items(known)),
            b,
            plus(held(merge_packed_closed(m, n, e, known, s, b).0), held_items(r.0)),
            r.1,
        ),
    decreases s.len(),
{
    if s.len() > 0 && merge_packed_closed(m, n, e, known, s, b).1 is Ok {
        let p = take_int32(s)->Ok_0;
        if enum_knows(m.pool, e, Some(EnumType::Closed), p.0) {
            let v = ValueModel::EnumNumber(p.0);
            lemma_items_push(known, v);
            lemma_packed_closed_paid(
                m,
                n,
                e,
                known.push(v),
                p.1,
                charge(b, element_cost())->Ok_0,
            );
        } else {
            let k = keep_number(m, n, p.0, p.1, b);
            lemma_unknown_held(m, k.0.unknown.last());
            assert(k.0 == with_unknown(m, k.0.unknown.last()));
            lemma_packed_closed_paid(k.0, n, e, known, p.1, k.1->Ok_0.1);
        }
    }
}

proof fn lemma_items_join(l: Seq<ValueModel>, known: Seq<ValueModel>)
    ensures
        held_items(l + known) == plus(held_items(l), held_items(known)),
    decreases known.len(),
{
    if known.len() == 0 {
        assert(l + known =~= l);
    } else {
        let t = known.drop_last();
        let v = known[known.len() - 1];
        lemma_items_join(l, t);
        assert((l + known).drop_last() =~= l + t);
        assert((l + known)[(l + known).len() - 1] == v);
    }
}

/// A list is put in the place of the one that was there.
proof fn lemma_put_list_held(m: MessageModel, n: u32, l: Seq<ValueModel>)
    ensures
        at_most(
            plus(held(with_field(m, n, ValueModel::List(l))), held_items(list_at(m.fields, n))),
            plus(held(m), held_items(l)),
        ),
{
    lemma_put_held(m, n, ValueModel::List(l));
}

proof fn lemma_known_held(m: MessageModel, n: u32, known: Seq<ValueModel>)
    ensures
        at_most(held(add_known(m, n, known)), plus(held(m), held_items(known))),
{
    if known.len() > 0 {
        let l = list_at(m.fields, n);
        lemma_items_join(l, known);
        lemma_put_list_held(m, n, l + known);
    }
}

proof fn lemma_entry_held(m: MessageModel, n: u32, k: KeyModel, v: ValueModel)
    ensures
        at_most(
            held(add_entry(m, n, k, v)),
            plus(held(m), plus(held_value(v), Cost { slots: 0, memory: entry_cost() })),
        ),
{
    let e = map_at(m.fields, n);
    lemma_entries_push(e, k, v);
    lemma_put_held(m, n, ValueModel::Mapping(e.push((k, v))));
}

proof fn lemma_keep_number_paid(m: MessageModel, n: u32, raw: i32, rest: Seq<u8>, b: Budget)
    ensures
        step_paid(m, b, keep_number(m, n, raw, rest, b)),
{
    let k = keep_number(m, n, raw, rest, b);
    if b.unknown > 0 {
        lemma_unknown_held(m, k.0.unknown.last());
        assert(k.0 == with_unknown(m, k.0.unknown.last()));
    }
}

proof fn lemma_fields_paid(
    m: MessageModel,
    s: Seq<u8>,
    end: Option<u32>,
    depth: nat,
    b: Budget,
)
    ensures
        step_paid(m, b, merge_fields(m, s, end, depth, b)),
    decreases depth, s.len(), 4nat,
{
    lemma_take_tag(s);
    if !(end is None && s.len() == 0) {
        if let Ok(g) = take_tag(s) {
            if !(end is Some && g.0.wire_type == WireType::EndGroup) {
                lemma_field_paid(m, g.0, g.1, depth, b);
                let r = merge_field(m, g.0, g.1, depth, b);
                if let Ok(l) = r.1 {
                    if l.0.len() < s.len() {
                        lemma_fields_paid(r.0, l.0, end, depth, l.1);
                    }
                }
            }
        }
    }
}

proof fn lemma_body_paid(m: MessageModel, tag: Tag, s: Seq<u8>, depth: nat, b: Budget)
    ensures
        step_paid(m, b, merge_body(m, tag, s, depth, b)),
    decreases depth, s.len(), 6nat,
{
    lemma_take_delimited(s);
    match tag.wire_type {
        WireType::LengthDelimited => {
            if let Ok(p) = take_delimited(s) {
                lemma_fields_paid(m, p.0, None, depth, b);
                lemma_normal_held(merge_fields(m, p.0, None, depth, b).0);
            }
        },
        WireType::StartGroup => {
            let end = Some(tag.field_number);
            lemma_fields_paid(m, s, end, depth, b);
            lemma_normal_held(merge_fields(m, s, end, depth, b).0);
        },
        _ => {},
    }
}

proof fn lemma_empty_held(pool: DescriptorPool, index: MessageIndex)
    ensures
        held(empty_message(pool, index)) == no_cost(),
{
}

proof fn lemma_element_paid(
    pool: DescriptorPool,
    kind: SingularKind,
    tag: Tag,
    s: Seq<u8>,
    depth: nat,
    b: Budget,
)
    ensures
        take_element(pool, kind, tag, s, depth, b) matches Ok(r) ==> paid(
            no_cost(),
            b,
            held_value(r.0),
            r.2,
        ),
    decreases depth, s.len(), 1nat,
{
    if let SingularKind::Message(i) = kind {
        if depth > 0 {
            lemma_empty_held(pool, i);
            lemma_body_paid(empty_message(pool, i), tag, s, (depth - 1) as nat, b);
        }
    }
}

/// What an entry holds so far.
spec fn held_so_far(v: Option<ValueModel>) -> Cost {
    match v {
        Some(x) => held_value(x),
        None => no_cost(),
    }
}

proof fn lemma_take_entry_paid(
    pool: DescriptorPool,
    key_type: ScalarType,
    kind: SingularKind,
    s: Seq<u8>,
    depth: nat,
    b: Budget,
    key: Option<KeyModel>,
    value: Option<ValueModel>,
)
    ensures
        take_entry(pool, key_type, kind, s, depth, b, key, value) matches Ok(r) ==> paid(
            held_so_far(value),
            b,
            held_so_far(r.1),
            r.2,
        ),
    decreases depth, s.len(), 2nat,
{
    lemma_take_tag(s);
    if s.len() > 0 && take_entry(pool, key_type, kind, s, depth, b, key, value) is Ok {
        let g = take_tag(s)->Ok_0;
        if g.0.field_number == 1 {
            let p = take_key(key_type, g.0, g.1)->Ok_0;
            lemma_take_entry_paid(pool, key_type, kind, p.1, depth, b, Some(p.0), value);
        } else if g.0.field_number == 2 {
            lemma_element_paid(pool, kind, g.0, g.1, depth, b);
            let r = take_element(pool, kind, g.0, g.1, depth, b)->Ok_0;
            lemma_take_entry_paid(pool, key_type, kind, r.1, depth, r.2, key, Some(r.0));
        } else {
            let p = take_payload(g.0, g.1, depth, None)->Ok_0;
            lemma_take_entry_paid(pool, key_type, kind, p.1, depth, b, key, value);
        }
    }
}

proof fn lemma_list_paid(
    m: MessageModel,
    n: u32,
    kind: SingularKind,
    enum_type: Option<EnumType>,
    tag: Tag,
    s: Seq<u8>,
    depth: nat,
    b: Budget,
)
    ensures
        step_paid(m, b, merge_list(m, n, kind, enum_type, tag, s, depth, b)),
    decreases depth, s.len(), 2nat,
{
    let l = list_at(m.fields, n);
    if merge_list(m, n, kind, enum_type, tag, s, depth, b).1 is Ok {
        if kind matches SingularKind::Enum(e) && enum_is_closed(m.pool, e, enum_type) {
            lemma_closed_list_paid(m, n, kind->Enum_0, tag, s, b);
        } else if tag.wire_type == WireType::LengthDelimited && packable(kind) {
            let p = take_delimited(s)->Ok_0;
            lemma_packed_paid(kind, n, l, p.0, b);
            lemma_put_list_held(m, n, merge_packed(kind, n, l, p.0, b).0);
        } else {
            lemma_element_paid(m.pool, kind, tag, s, depth, b);
            let r = take_element(m.pool, kind, tag, s, depth, b)->Ok_0;
            lemma_items_push(l, r.0);
            lemma_put_list_held(m, n, l.push(r.0));
        }
    }
}

proof fn lemma_closed_list_paid(
    m: MessageModel,
    n: u32,
    e: EnumIndex,
    tag: Tag,
    s: Seq<u8>,
    b: Budget,
)
    ensures
        step_paid(m, b, merge_closed_list(m, n, e, tag, s, b)),
{
    if merge_closed_list(m, n, e, tag, s, b).1 is Ok {
        if tag.wire_type == WireType::LengthDelimited {
            let p = take_delimited(s)->Ok_0;
            let none = Seq::<ValueModel>::empty();
            lemma_packed_closed_paid(m, n, e, none, p.0, b);
            let w = merge_packed_closed(m, n, e, none, p.0, b);
            assert(held_items(none) == no_cost());
            lemma_known_held(w.0, n, w.1->Ok_0.0);
        } else {
            let p = take_int32(s)->Ok_0;
            let v = ValueModel::EnumNumber(p.0);
            let none = Seq::<ValueModel>::empty();
            lemma_keep_number_paid(m, n, p.0, p.1, b);
            lemma_items_push(none, v);
            assert(none.push(v) =~= seq![v]);
            assert(held_items(none) == no_cost());
            lemma_known_held(m, n, seq![v]);
        }
    }
}

proof fn lemma_map_paid(
    m: MessageModel,
    n: u32,
    key: ScalarType,
    kind: SingularKind,
    enum_type: Option<EnumType>,
    s: Seq<u8>,
    depth: nat,
    b: Budget,
)
    ensures
        step_paid(m, b, merge_map(m, n, key, kind, enum_type, s, depth, b)),
    decreases depth, s.len(), 2nat,
{
    lemma_take_delimited(s);
    let w = merge_map(m, n, key, kind, enum_type, s, depth, b);
    if w.1 is Ok {
        let p = take_delimited(s)->Ok_0;
        if kind matches SingularKind::Enum(e) && enum_is_closed(m.pool, e, enum_type) {
            lemma_closed_map_paid(m, n, key, kind->Enum_0, s, depth, b);
        } else {
            lemma_take_entry_paid(m.pool, key, kind, p.0, depth, b, None, None);
            let r = take_entry(m.pool, key, kind, p.0, depth, b, None, None)->Ok_0;
            let k = or_default(r.0, key_default(key));
            let v = or_default(r.1, element_default(kind, m.pool));
            if let SingularKind::Message(i) = kind {
                lemma_empty_held(m.pool, i);
            }
            assert(held_value(v) == held_so_far(r.1));
            lemma_entry_held(m, n, k, v);
        }
    }
}

proof fn lemma_closed_map_paid(
    m: MessageModel,
    n: u32,
    key: ScalarType,
    e: EnumIndex,
    s: Seq<u8>,
    depth: nat,
    b: Budget,
)
    ensures
        step_paid(m, b, merge_closed_map(m, n, key, e, s, depth, b)),
{
    let w = merge_closed_map(m, n, key, e, s, depth, b);
    if w.1 is Ok {
        let p = take_delimited(s)->Ok_0;
        let r = take_closed_entry(
            m.pool,
            key,
            e,
            p.0,
            depth,
            None,
            ClosedValue::Absent,
        )->Ok_0;
        if r.1 is Unknown {
            let u = UnknownEntry { number: n, data: UnknownPayload::LengthDelimited(p.0) };
            lemma_unknown_held(m, u);
        } else {
            let k = or_default(r.0, key_default(key));
            let v = match r.1 {
                ClosedValue::Known(x) => x,
                _ => 0,
            };
            lemma_entry_held(m, n, k, ValueModel::EnumNumber(v));
        }
    }
}

proof fn lemma_existing_paid(m: MessageModel, n: u32, tag: Tag, s: Seq<u8>, depth: nat, b: Budget)
    ensures
        step_paid(m, b, merge_existing(m, n, tag, s, depth, b)),
    decreases depth, s.len(), 2nat,
{
    if depth > 0 {
        if let Some(ValueModel::Message(x)) = field_get(m.fields, n) {
            let r = merge_body(x, tag, s, (depth - 1) as nat, b);
            lemma_body_paid(x, tag, s, (depth - 1) as nat, b);
            lemma_put_held(m, n, ValueModel::Message(r.0));
        }
    }
}

proof fn lemma_field_paid(m: MessageModel, tag: Tag, s: Seq<u8>, depth: nat, b: Budget)
    ensures
        step_paid(m, b, merge_field(m, tag, s, depth, b)),
    decreases depth, s.len(), 3nat,
{
    let n = tag.field_number;
    lemma_payload_slots(tag, s, depth, b.unknown as nat);
    if let Ok(p) = take_payload(tag, s, depth, Some(b.unknown as nat)) {
        lemma_unknown_held(m, UnknownEntry { number: n, data: p.0 });
    }
    assert(step_paid(m, b, merge_unknown(m, tag, s, depth, b)));
    if let Some(fd) = field_of(m.pool, m.index, n) {
        if wire_admits(fd.kind, tag.wire_type) {
            let c = clear_oneof(m, fd.oneof_index, n);
            lemma_clear_held(m, fd.oneof_index, n);
            match fd.kind {
                FieldKind::Singular(SingularKind::Enum(e)) => {
                    if let Ok(p) = take_int32(s) {
                        lemma_keep_number_paid(m, n, p.0, p.1, b);
                        lemma_put_held(c, n, ValueModel::EnumNumber(p.0));
                    }
                },
                FieldKind::Singular(k) => {
                    lemma_existing_paid(c, n, tag, s, depth, b);
                    lemma_element_paid(m.pool, k, tag, s, depth, b);
                    if let Ok(r) = take_element(m.pool, k, tag, s, depth, b) {
                        lemma_put_held(c, n, r.0);
                    }
                },
                FieldKind::List(k) => {
                    lemma_list_paid(m, n, k, fd.enum_type, tag, s, depth, b);
                },
                FieldKind::Mapping { key, value } => {
                    lemma_map_paid(m, n, key, value, fd.enum_type, s, depth, b);
                },
            }
        }
    }
}

/// The limits under which a message was decoded leave room to decode it again;
/// but among the unknown fields, where entries of its maps stray.
pub proof fn law_decoded_covered(
    pool: DescriptorPool,
    index: MessageIndex,
    s: Seq<u8>,
    o: DecodeOptions,
)
    ensures
        decoded(pool, index, s, o) matches Ok(m) ==> {
            &&& message_cost(m).memory <= full_budget(o).elements
            &&& settled(m) ==> message_cost(m).slots <= full_budget(o).unknown
        },
{
    if let Ok(m) = decoded(pool, index, s, o) {
        let x = empty_message(pool, index);
        let d = o.recursion_limit as nat;
        lemma_empty_held(pool, index);
        lemma_fields_paid(x, s, None, d, full_budget(o));
        lemma_normal_held(merge_fields(x, s, None, d, full_budget(o)).0);
        lemma_cost_held(m);
    }
}

} // verus!
