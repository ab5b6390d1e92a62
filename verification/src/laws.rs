//! What holds of messages whatever is done with them: laws that tie setting,
//! reading, merging, encoding, wrapping and writing as JSON together.
use vstd::prelude::*;
use vstd::utf8::encode_utf8;
use crate::adopt::{adopted, adopted_entries, adopted_items, adopted_singular, rehomed};
use crate::any::{any_name, any_type, bytes_at, packed, text_at, unpacked, AnyErrorModel};
use crate::buffered::{buffered, buffered_members, lemma_member_moved, member_at, member_put};
use crate::decode::{decoded, default_options, depth_options, full_budget, merged, DecodeOptions};
use crate::descriptor::{
    enum_knows, field_of, index_of, lemma_field_of, lemma_message_at, pool_linked, DescriptorPool,
    FieldDescriptor, FieldKind, MessageIndex, ScalarType, SingularKind,
};
use crate::encode::{
    entries_bytes, message_bytes, repeated_bytes, set_bytes, stored_bytes, tagged_bytes,
};
use crate::from_json::any_from;
use crate::json::{InputModel, JsonModel};
use crate::kept::{
    among, exclusive, lemma_among_get, lemma_clear_kept, lemma_del_kept, lemma_get_among,
    lemma_put_exclusive, lemma_put_kept, ordered, regular, shares_oneof, value_ordered,
};
use crate::map::{bytes_before, lemma_normal_entries_sorted, normal_entries};
use crate::merge::{
    clear_oneof, merge_field, merge_message, normal_fields, normal_message, take_element, Budget,
};
use crate::merge_kept::{
    grows, lemma_del_get, lemma_message_kept, lemma_normal_among, lemma_ordered_loosely,
};
use crate::message::{clear_field, field_value, has_field, is_member, set_field};
use crate::reread::{
    law_decoded, law_reencode_again, lemma_regular_readable, strays_last, within_levels,
};
use crate::roundtrip::{
    canonical, covers, in_oneof, law_decode_encode, message_cost, readable, settled, stray_fields,
};
use crate::scalar::{capped, element_wire, take_int32, wire_admits};
use crate::shape::{full_name, is_homed, key_fits, singular_fits, value_fits, MismatchModel};
use crate::spending::law_decoded_covered;
use crate::text::lemma_last_segment_of;
use crate::to_json::{
    any_json, dynamic_json, element_json, entries_json, items_json, list_json, members_json,
    message_json, nested_json, payload_json, spread_json, struct_json, too_deep, value_json,
    wkt_json,
};
use crate::value::{
    empty_message, field_del, field_get, field_insert, fields_sorted, lemma_put_get, with_field,
    KeyModel, MessageModel, ValueModel,
};
use crate::wire::{
    lemma_varint_bytes_len, tag_bytes, wire_code, DecodeError, Tag, WireType, MAX_MESSAGE_BYTES,
};
use crate::wkt::{wkt_of, WktKind};

verus! {

// ── Merging ─────────────────────────────────────────────────────────────────

/// Merging, whether or not it fails, keeps the type of a message and the
/// unknown fields it had, in front of new ones, in the order in which they
/// arrived. The fields stay in the order of their numbers and the maps in that
/// of their keys, and no two members of a oneof are set, if that was so before.
pub proof fn law_merge(m: MessageModel, s: Seq<u8>, o: DecodeOptions)
    ensures
        ({
            let r = merged(m, s, o).0;
            &&& r.pool == m.pool
            &&& r.index == m.index
            &&& grows(m.unknown, r.unknown)
            &&& ordered(m) ==> ordered(r)
            &&& pool_linked(m.pool) && regular(m, o.recursion_limit as nat) ==> exclusive(r)
                && regular(r, o.recursion_limit as nat)
        }),
{
    if s.len() <= o.max_message_size {
        lemma_message_kept(m, s, None, o.recursion_limit as nat, full_budget(o));
        if ordered(m) {
            lemma_ordered_loosely(m);
        }
    }
}

/// A number that a closed enum does not declare is kept as an unknown field;
/// the fields, oneof siblings among them, stay as they are.
pub proof fn law_undeclared_number(
    m: MessageModel,
    tag: Tag,
    s: Seq<u8>,
    depth: nat,
    b: Budget,
)
    requires
        field_of(m.pool, m.index, tag.field_number) matches Some(fd) && wire_admits(
            fd.kind,
            tag.wire_type,
        ) && (fd.kind matches FieldKind::Singular(SingularKind::Enum(e)) && (take_int32(
            s,
        ) matches Ok(p) && !enum_knows(m.pool, e, fd.enum_type, p.0))),
    ensures
        merge_field(m, tag, s, depth, b).0.fields == m.fields,
{
}

/// Where the value for a singular field cannot be decoded, and there is no
/// message to merge it into, the message stays as it is: also the oneof member
/// that was set.
pub proof fn law_failed_value(
    m: MessageModel,
    tag: Tag,
    s: Seq<u8>,
    depth: nat,
    b: Budget,
)
    requires
        field_of(m.pool, m.index, tag.field_number) matches Some(fd) && wire_admits(
            fd.kind,
            tag.wire_type,
        ) && (fd.kind matches FieldKind::Singular(k) && !(k is Enum) && take_element(
            m.pool,
            k,
            tag,
            s,
            depth,
            b,
        ) is Err && !(k is Message && (field_get(m.fields, tag.field_number) matches Some(
            ValueModel::Message(_),
        )))),
    ensures
        merge_field(m, tag, s, depth, b).0 == m,
        merge_field(m, tag, s, depth, b).1 is Err,
{
}

// ── Setting and clearing ────────────────────────────────────────────────────

/// A field that was set reads as the value that was taken in for it. Fields of
/// another oneof, or of none, stay as they are; the siblings are gone.
pub proof fn law_set_get(m: MessageModel, field: FieldDescriptor, v: ValueModel, n: u32)
    requires
        pool_linked(m.pool),
        m.index.0 < m.pool.message_seq().len(),
        fields_sorted(m.fields),
        set_field(m, field, v) is Ok,
    ensures
        ({
            let x = set_field(m, field, v)->Ok_0;
            let f = field_of(m.pool, m.index, field.number)->Some_0;
            &&& field_get(x.fields, field.number) == Some(adopted(f.kind, v, m.pool)->Ok_0)
            &&& field_value(x, f) == adopted(f.kind, v, m.pool)->Ok_0
            &&& n != field.number && !in_oneof(m.pool, m.index, f.oneof_index, n) ==> field_get(
                x.fields,
                n,
            ) == field_get(m.fields, n)
            &&& n != field.number && in_oneof(m.pool, m.index, f.oneof_index, n) ==> field_get(
                x.fields,
                n,
            ) is None
            &&& x.unknown == m.unknown
        }),
{
    let f = field_of(m.pool, m.index, field.number)->Some_0;
    let w = adopted(f.kind, v, m.pool)->Ok_0;
    lemma_field_of(m.pool, m.index, field.number);
    lemma_put_reads(m, f.oneof_index, field.number, w, n);
}

pub proof fn lemma_put_reads(
    m: MessageModel,
    oneof: Option<u16>,
    number: u32,
    w: ValueModel,
    n: u32,
)
    requires
        fields_sorted(m.fields),
    ensures
        ({
            let x = with_field(clear_oneof(m, oneof, number), number, w);
            &&& field_get(x.fields, number) == Some(w)
            &&& n != number ==> field_get(x.fields, n) == if in_oneof(m.pool, m.index, oneof, n) {
                None
            } else {
                field_get(m.fields, n)
            }
            &&& x.unknown == m.unknown
        }),
{
    let c = clear_oneof(m, oneof, number);
    lemma_put_get(c.fields, number, w, number);
    lemma_put_get(c.fields, number, w, n);
    if n != number {
        lemma_clear_reads(m, oneof, number, n);
    }
}

proof fn lemma_clear_reads(m: MessageModel, oneof: Option<u16>, keep: u32, n: u32)
    requires
        fields_sorted(m.fields),
        n != keep,
    ensures
        field_get(clear_oneof(m, oneof, keep).fields, n) == if in_oneof(
            m.pool,
            m.index,
            oneof,
            n,
        ) {
            None
        } else {
            field_get(m.fields, n)
        },
{
    let c = clear_oneof(m, oneof, keep);
    lemma_clear_kept(m, oneof, keep);
    lemma_get_among(c.fields, n);
    lemma_get_among(m.fields, n);
    if let Some(y) = field_get(c.fields, n) {
        let k = choose|k: int| 0 <= k < c.fields.len() && #[trigger] c.fields[k] == (n, y);
        assert(among(m.fields, c.fields[k]));
        let j = choose|j: int| 0 <= j < m.fields.len() && #[trigger] m.fields[j] == (n, y);
        lemma_among_get(m.fields, j);
    } else if let Some(y) = field_get(m.fields, n) {
        let k = choose|k: int| 0 <= k < m.fields.len() && #[trigger] m.fields[k] == (n, y);
        if !in_oneof(m.pool, m.index, oneof, n) {
            assert(among(c.fields, m.fields[k]));
            let j = choose|j: int| 0 <= j < c.fields.len() && #[trigger] c.fields[j] == (n, y);
            lemma_among_get(c.fields, j);
        }
    }
}

/// A field that was cleared is not there; the others stay as they are.
pub proof fn law_clear_get(m: MessageModel, field: FieldDescriptor, n: u32)
    requires
        fields_sorted(m.fields),
        clear_field(m, field) is Ok,
    ensures
        ({
            let x = clear_field(m, field)->Ok_0;
            &&& !has_field(x, field)
            &&& field_get(x.fields, field.number) is None
            &&& n != field.number ==> field_get(x.fields, n) == field_get(m.fields, n)
            &&& x.unknown == m.unknown
        }),
{
    lemma_del_kept(m.fields, field.number);
    let x = clear_field(m, field)->Ok_0;
    lemma_get_among(x.fields, field.number);
    if n != field.number {
        lemma_del_get(m.fields, field.number, n);
    }
}

/// Setting and clearing keep a message in order, and no two members of a oneof
/// set.
pub proof fn law_set_kept(m: MessageModel, field: FieldDescriptor, v: ValueModel)
    requires
        pool_linked(m.pool),
        m.index.0 < m.pool.message_seq().len(),
        ordered(m),
    ensures
        value_ordered(v) ==> (set_field(m, field, v) matches Ok(x) ==> ordered(x)),
        exclusive(m) ==> (set_field(m, field, v) matches Ok(x) ==> exclusive(x)),
        clear_field(m, field) matches Ok(x) ==> ordered(x),
        exclusive(m) ==> (clear_field(m, field) matches Ok(x) ==> exclusive(x)),
{
    let n = field.number;
    if let Ok(x) = set_field(m, field, v) {
        let f = field_of(m.pool, m.index, n)->Some_0;
        let c = clear_oneof(m, f.oneof_index, n);
        let w = adopted(f.kind, v, m.pool)->Ok_0;
        lemma_clear_kept(m, f.oneof_index, n);
        lemma_put_kept(c.fields, n, w);
        if value_ordered(v) {
            lemma_adopted_ordered(f.kind, v, m.pool);
            assert forall|i: int| 0 <= i < x.fields.len() implies value_ordered(
                (#[trigger] x.fields[i]).1,
            ) by {
                if x.fields[i] != (n, w) {
                    let k = choose|k: int|
                        0 <= k < c.fields.len() && #[trigger] c.fields[k] == x.fields[i];
                    assert(among(m.fields, c.fields[k]));
                    let j = choose|j: int|
                        0 <= j < m.fields.len() && #[trigger] m.fields[j] == x.fields[i];
                    assert(value_ordered(m.fields[j].1));
                }
            }
            assert(ordered(x));
        }
        if exclusive(m) {
            lemma_put_exclusive(m, n, w);
        }
    }
    if let Ok(x) = clear_field(m, field) {
        lemma_del_kept(m.fields, n);
        assert forall|i: int| 0 <= i < x.fields.len() implies value_ordered(
            (#[trigger] x.fields[i]).1,
        ) by {
            let j = choose|j: int| 0 <= j < m.fields.len() && #[trigger] m.fields[j] == x.fields[i];
            assert(value_ordered(m.fields[j].1));
        }
        assert(ordered(x));
        if exclusive(m) {
            assert forall|i: int, j: int|
                #![trigger x.fields[i], x.fields[j]]
                0 <= i < x.fields.len() && 0 <= j < x.fields.len() && i != j implies !shares_oneof(
                x.pool,
                x.index,
                x.fields[j].0,
                x.fields[i].0,
            ) by {
                assert(among(m.fields, x.fields[i]) && among(m.fields, x.fields[j]));
                let p = choose|p: int|
                    0 <= p < m.fields.len() && #[trigger] m.fields[p] == x.fields[i];
                let q = choose|q: int|
                    0 <= q < m.fields.len() && #[trigger] m.fields[q] == x.fields[j];
                assert(x.fields[i].0 != x.fields[j].0) by {
                    if i < j {
                        assert(x.fields[i].0 < x.fields[j].0);
                    } else {
                        assert(x.fields[j].0 < x.fields[i].0);
                    }
                }
                assert(!shares_oneof(m.pool, m.index, m.fields[q].0, m.fields[p].0));
            }
        }
    }
}

// ── Taking values in ────────────────────────────────────────────────────────

/// A value that is taken in fits the field, with every message of it in the
/// pool; and a value that fits is taken in as it is.
pub proof fn law_adopted(kind: FieldKind, v: ValueModel, pool: DescriptorPool)
    ensures
        adopted(kind, v, pool) matches Ok(x) ==> value_fits(kind, x, pool),
        value_fits(kind, v, pool) ==> adopted(kind, v, pool) == Ok::<
            ValueModel,
            MismatchModel,
        >(v),
{
    if !value_fits(kind, v, pool) {
        match kind {
            FieldKind::Singular(k) => {
                lemma_adopted_singular(k, v, pool);
            },
            FieldKind::List(k) => {
                if let ValueModel::List(l) = v {
                    lemma_adopted_items(k, l, pool, 0);
                }
            },
            FieldKind::Mapping { key, value } => {
                if let ValueModel::Mapping(e) = v {
                    lemma_adopted_entries(key, value, e, pool, 0);
                    if let Ok(x) = adopted_entries(key, value, e, pool, 0) {
                        lemma_normal_among(x);
                        let n = normal_entries(x);
                        assert forall|i: int| 0 <= i < n.len() implies key_fits(
                            key,
                            (#[trigger] n[i]).0,
                        ) && singular_fits(value, n[i].1, pool) by {
                            let j = choose|j: int| 0 <= j < x.len() && #[trigger] x[j] == n[i];
                            assert(key_fits(key, x[j].0));
                        }
                    }
                }
            },
        }
    }
}

proof fn lemma_adopted_singular(kind: SingularKind, v: ValueModel, pool: DescriptorPool)
    ensures
        adopted_singular(kind, v, pool) matches Ok(x) ==> singular_fits(kind, x, pool),
        value_ordered(v) ==> (adopted_singular(kind, v, pool) matches Ok(x) ==> value_ordered(x)),
{
    if let (SingularKind::Message(i), ValueModel::Message(m)) = (kind, v) {
        if !is_homed(m, pool, i) {
            if let Ok(x) = rehomed(m, i, pool) {
                law_merge(empty_message(pool, i), message_bytes(m), default_options());
                assert(ordered(empty_message(pool, i)));
            }
        }
    }
}

proof fn lemma_adopted_items(
    kind: SingularKind,
    l: Seq<ValueModel>,
    pool: DescriptorPool,
    i: nat,
)
    ensures
        adopted_items(kind, l, pool, i) matches Ok(x) ==> forall|j: int|
            0 <= j < x.len() ==> singular_fits(kind, #[trigger] x[j], pool),
        (forall|j: int| 0 <= j < l.len() ==> value_ordered(#[trigger] l[j])) ==> (adopted_items(
            kind,
            l,
            pool,
            i,
        ) matches Ok(x) ==> forall|j: int| 0 <= j < x.len() ==> value_ordered(#[trigger] x[j])),
    decreases l.len() - i,
{
    if i < l.len() {
        lemma_adopted_singular(kind, l[i as int], pool);
        lemma_adopted_items(kind, l, pool, i + 1);
    }
}

proof fn lemma_adopted_entries(
    key: ScalarType,
    value: SingularKind,
    e: Seq<(KeyModel, ValueModel)>,
    pool: DescriptorPool,
    i: nat,
)
    ensures
        adopted_entries(key, value, e, pool, i) matches Ok(x) ==> forall|j: int|
            0 <= j < x.len() ==> key_fits(key, (#[trigger] x[j]).0) && singular_fits(
                value,
                x[j].1,
                pool,
            ),
        (forall|j: int| 0 <= j < e.len() ==> value_ordered((#[trigger] e[j]).1)) ==> (
        adopted_entries(key, value, e, pool, i) matches Ok(x) ==> forall|j: int|
            0 <= j < x.len() ==> value_ordered((#[trigger] x[j]).1)),
    decreases e.len() - i,
{
    if i < e.len() {
        lemma_adopted_singular(value, e[i as int].1, pool);
        lemma_adopted_entries(key, value, e, pool, i + 1);
    }
}

proof fn lemma_adopted_ordered(kind: FieldKind, v: ValueModel, pool: DescriptorPool)
    requires
        value_ordered(v),
    ensures
        adopted(kind, v, pool) matches Ok(x) ==> value_ordered(x),
{
    if !value_fits(kind, v, pool) {
        match kind {
            FieldKind::Singular(k) => {
                lemma_adopted_singular(k, v, pool);
            },
            FieldKind::List(k) => {
                if let ValueModel::List(l) = v {
                    lemma_adopted_items(k, l, pool, 0);
                }
            },
            FieldKind::Mapping { key, value } => {
                if let ValueModel::Mapping(e) = v {
                    lemma_adopted_entries(key, value, e, pool, 0);
                    if let Ok(x) = adopted_entries(key, value, e, pool, 0) {
                        lemma_normal_entries_sorted(x);
                        lemma_normal_among(x);
                        let n = normal_entries(x);
                        assert forall|i: int| 0 <= i < n.len() implies value_ordered(
                            (#[trigger] n[i]).1,
                        ) by {
                            let j = choose|j: int| 0 <= j < x.len() && #[trigger] x[j] == n[i];
                            assert(value_ordered(x[j].1));
                        }
                    }
                }
            },
        }
    }
}

// ── Presence ────────────────────────────────────────────────────────────────

/// A field that is not set is written as nothing, and one that is set to a
/// value that fits it is written as something.
pub proof fn law_presence(m: MessageModel, fd: FieldDescriptor, v: ValueModel)
    requires
        field_get(m.fields, fd.number) == Some(v),
        value_fits(fd.kind, v, m.pool),
    ensures
        has_field(m, fd) <==> stored_bytes(fd, v, m.pool).len() > 0,
{
    lemma_varint_bytes_len_of_tag(fd.number, WireType::LengthDelimited);
    match (fd.kind, v) {
        (FieldKind::Singular(k), _) => {
            lemma_tagged_len(fd, k, v, m.pool);
        },
        (FieldKind::List(k), ValueModel::List(l)) => {
            if l.len() > 0 {
                assert(singular_fits(k, l[0], m.pool));
                lemma_tagged_len(fd, k, l[0], m.pool);
                assert(repeated_bytes(fd.number, k, fd.delimited, l).len() > 0);
            }
        },
        (FieldKind::Mapping { key, value }, ValueModel::Mapping(e)) => {
            if e.len() > 0 {
                assert(entries_bytes(fd.number, key, value, e).len() > 0);
            } else {
                assert(entries_bytes(fd.number, key, value, e).len() == 0);
            }
        },
        _ => {},
    }
}

/// The bytes that one field adds.
spec fn added_bytes(pool: DescriptorPool, index: MessageIndex, f: (u32, ValueModel)) -> Seq<u8> {
    match field_of(pool, index, f.0) {
        Some(fd) => stored_bytes(fd, f.1, pool),
        None => Seq::empty(),
    }
}

proof fn lemma_set_bytes_push(
    pool: DescriptorPool,
    index: MessageIndex,
    fields: Seq<(u32, ValueModel)>,
    f: (u32, ValueModel),
)
    ensures
        set_bytes(pool, index, fields.push(f)).len() == set_bytes(pool, index, fields).len()
            + added_bytes(pool, index, f).len(),
    decreases fields.len(),
{
    let all = fields.push(f);
    let rest = all.subrange(1, all.len() as int);
    if fields.len() == 0 {
        assert(rest =~= Seq::empty());
        assert(set_bytes(pool, index, rest).len() == 0);
    } else {
        let t = fields.subrange(1, fields.len() as int);
        assert(rest =~= t.push(f));
        lemma_set_bytes_push(pool, index, t, f);
    }
}

proof fn lemma_del_bytes(
    pool: DescriptorPool,
    index: MessageIndex,
    fields: Seq<(u32, ValueModel)>,
    n: u32,
)
    ensures
        match field_get(fields, n) {
            Some(v) => set_bytes(pool, index, fields).len() == set_bytes(
                pool,
                index,
                field_del(fields, n),
            ).len() + added_bytes(pool, index, (n, v)).len(),
            None => field_del(fields, n) == fields,
        },
    decreases fields.len(),
{
    if fields.len() > 0 {
        let t = fields.drop_last();
        assert(t.push(fields.last()) =~= fields);
        lemma_set_bytes_push(pool, index, t, fields.last());
        if fields.last().0 != n {
            lemma_del_bytes(pool, index, t, n);
            lemma_set_bytes_push(pool, index, field_del(t, n), fields.last());
        }
    }
}

/// A field is set exactly where clearing it would make the message shorter on
/// the wire.
pub proof fn law_has_shortens(m: MessageModel, field: FieldDescriptor)
    requires
        pool_linked(m.pool),
        m.index.0 < m.pool.message_seq().len(),
        is_member(m, field),
        field_get(m.fields, field.number) matches Some(v) ==> value_fits(
            field_of(m.pool, m.index, field.number)->Some_0.kind,
            v,
            m.pool,
        ),
    ensures
        clear_field(m, field) is Ok,
        ({
            let fd = field_of(m.pool, m.index, field.number)->Some_0;
            let cleared = message_bytes(clear_field(m, field)->Ok_0).len();
            &&& has_field(m, fd) <==> cleared < message_bytes(m).len()
            &&& message_bytes(m).len() <= usize::MAX ==> (has_field(m, fd) <==> capped(cleared)
                < capped(message_bytes(m).len()))
        }),
{
    let n = field.number;
    let fd = field_of(m.pool, m.index, n)->Some_0;
    lemma_field_of(m.pool, m.index, n);
    lemma_del_bytes(m.pool, m.index, m.fields, n);
    if let Some(v) = field_get(m.fields, n) {
        law_presence(m, fd, v);
    }
}

/// There is a member under the name.
pub open spec fn has_member(o: Seq<(Seq<char>, JsonModel)>, name: Seq<char>) -> bool {
    exists|k: int| 0 <= k < o.len() && (#[trigger] o[k]).0 == name
}

/// One of the declared fields, from the `from`-th on, is set and has the name
/// in JSON.
pub open spec fn has_named(m: MessageModel, from: nat, name: Seq<char>) -> bool {
    let fields = m.pool.message_seq()[m.index.0 as int].fields@;
    exists|i: int|
        from <= i < fields.len() && (#[trigger] fields[i]).json_name@ == name && has_field(
            m,
            fields[i],
        )
}

/// The JSON of a plain message has a member under the name of a declared field
/// exactly where the field is set.
pub proof fn law_json_presence(m: MessageModel, depth: nat, name: Seq<char>)
    requires
        wkt_of(full_name(m)) is None,
        message_json(m, depth) is Ok,
    ensures
        message_json(m, depth)->Ok_0 is Object,
        has_member(message_json(m, depth)->Ok_0->Object_0, name) <==> has_named(m, 0, name),
{
    lemma_members_presence(m, 0, depth, name);
}

proof fn lemma_members_presence(m: MessageModel, from: nat, depth: nat, name: Seq<char>)
    requires
        members_json(m, from, depth) is Ok,
    ensures
        has_member(members_json(m, from, depth)->Ok_0, name) <==> has_named(m, from, name),
    decreases m.pool.message_seq()[m.index.0 as int].fields@.len() - from,
{
    let fields = m.pool.message_seq()[m.index.0 as int].fields@;
    let o = members_json(m, from, depth)->Ok_0;
    if from < fields.len() {
        let fd = fields[from as int];
        lemma_members_presence(m, from + 1, depth, name);
        assert(has_named(m, from, name) <==> has_named(m, from + 1, name) || (fd.json_name@ == name
            && has_field(m, fd))) by {
            if has_named(m, from, name) {
                let i = choose|i: int|
                    from <= i < fields.len() && (#[trigger] fields[i]).json_name@ == name
                        && has_field(m, fields[i]);
                assert(i > from ==> has_named(m, from + 1, name));
            }
        }
        if has_field(m, fd) {
            let rest = members_json(m, from + 1, depth)->Ok_0;
            assert(o.len() == rest.len() + 1);
            assert(o[0].0 == fd.json_name@);
            assert forall|k: int| 0 <= k < rest.len() implies o[k + 1] == #[trigger] rest[k] by {}
            if has_member(rest, name) {
                let k = choose|k: int| 0 <= k < rest.len() && (#[trigger] rest[k]).0 == name;
                assert(o[k + 1].0 == name);
            }
            if has_member(o, name) && fd.json_name@ != name {
                let k = choose|k: int| 0 <= k < o.len() && (#[trigger] o[k]).0 == name;
                assert(rest[k - 1].0 == name);
            }
        }
    }
}

proof fn lemma_varint_bytes_len_of_tag(number: u32, w: WireType)
    ensures
        tag_bytes(number, w).len() > 0,
{
    lemma_varint_bytes_len((number * 8 + wire_code(w)) as u64);
}

proof fn lemma_tagged_len(
    fd: FieldDescriptor,
    kind: SingularKind,
    v: ValueModel,
    pool: DescriptorPool,
)
    requires
        singular_fits(kind, v, pool),
    ensures
        tagged_bytes(fd.number, kind, fd.delimited, v).len() > 0,
{
    lemma_varint_bytes_len_of_tag(
        fd.number,
        element_wire(kind, fd.delimited),
    );
}

// ── Any ─────────────────────────────────────────────────────────────────────

/// Only the part behind the last slash of a `type_url` names the type: any
/// prefix will do.
pub proof fn law_any_prefix(pool: DescriptorPool, prefix: Seq<char>, name: Seq<char>)
    requires
        forall|i: int| 0 <= i < name.len() ==> name[i] != '/',
    ensures
        any_type(pool, prefix.push('/') + name) == index_of(pool, name),
{
    lemma_last_segment_of(prefix.push('/'), name);
}

/// An `Any` whose value is absent or empty wraps a message with nothing set.
pub proof fn law_unpack_empty(m: MessageModel)
    requires
        full_name(m) == any_name(),
        text_at(m, 1).len() > 0,
        any_type(m.pool, text_at(m, 1)) is Some,
        bytes_at(m, 2).len() == 0,
    ensures
        unpacked(m) == Ok::<MessageModel, AnyErrorModel>(
            empty_message(m.pool, any_type(m.pool, text_at(m, 1))->Some_0),
        ),
{
    let i = any_type(m.pool, text_at(m, 1))->Some_0;
    let x = empty_message(m.pool, i);
    assert(normal_message(x) == x) by {
        assert(normal_fields(x.fields) =~= x.fields);
    }
    assert(merge_message(
        x,
        bytes_at(m, 2),
        None,
        default_options().recursion_limit as nat,
        full_budget(default_options()),
    ).0 == x);
}

/// Unpacking what was packed gives the message back in canonical form, with
/// every unknown field it had behind the entries of its maps that stray.
pub proof fn law_unpack_pack(m: MessageModel)
    requires
        index_of(m.pool, any_name()) is Some,
        index_of(m.pool, full_name(m)) == Some(m.index),
        forall|i: int| 0 <= i < full_name(m).len() ==> full_name(m)[i] != '/',
        m.pool.message_seq().len() <= usize::MAX,
        readable(m, default_options().recursion_limit as nat),
        covers(full_budget(default_options()), message_cost(m)),
        message_bytes(m).len() <= MAX_MESSAGE_BYTES,
    ensures
        packed(m) is Ok,
        unpacked(packed(m)->Ok_0) == Ok::<MessageModel, AnyErrorModel>(canonical(m)),
        canonical(m).unknown == stray_fields(m.pool, m.index, m.fields) + m.unknown,
{
    let i = index_of(m.pool, any_name())->Some_0;
    let prefix = "type.googleapis.com/"@;
    let url = prefix + full_name(m);
    let a = with_field(empty_message(m.pool, i), 1, ValueModel::Text(url));
    let p = with_field(a, 2, ValueModel::Bytes(message_bytes(m)));
    lemma_message_at(m.pool.message_seq(), any_name(), 0);
    reveal_strlit("type.googleapis.com/");
    lemma_last_segment_of(prefix, full_name(m));
    lemma_put_get(a.fields, 2, ValueModel::Bytes(message_bytes(m)), 1);
    lemma_put_get(a.fields, 2, ValueModel::Bytes(message_bytes(m)), 2);
    lemma_put_get(empty_message(m.pool, i).fields, 1, ValueModel::Text(url), 1);
    assert(packed(m) == Ok::<MessageModel, AnyErrorModel>(p));
    assert(text_at(p, 1) == url);
    assert(bytes_at(p, 2) == message_bytes(m));
    law_decode_encode(m, default_options());
}

/// Packing a message that was decoded and unpacking it gives a message of the
/// same type in the same pool, with the same unknown fields, that is encoded to
/// the same bytes.
///
/// A map entry that came without a value strays where the map is of a closed
/// enum that does not declare 0. The entries that stray come back as unknown
/// fields in front of the others, if there is room for them, and the bytes are
/// the same if nothing else is written behind them.
pub proof fn law_unpack_decoded(pool: DescriptorPool, index: MessageIndex, s: Seq<u8>)
    requires
        pool_linked(pool),
        index.0 < pool.message_seq().len() <= usize::MAX,
        decoded(pool, index, s, default_options()) is Ok,
        packed(decoded(pool, index, s, default_options())->Ok_0) is Ok,
        ({
            let m = decoded(pool, index, s, default_options())->Ok_0;
            &&& index_of(pool, full_name(m)) == Some(index)
            &&& forall|i: int| 0 <= i < full_name(m).len() ==> full_name(m)[i] != '/'
            &&& within_levels(m, default_options().recursion_limit as nat)
            &&& settled(m) || message_cost(m).slots <= full_budget(default_options()).unknown
        }),
    ensures
        ({
            let m = decoded(pool, index, s, default_options())->Ok_0;
            unpacked(packed(m)->Ok_0) matches Ok(x) && {
                &&& x == canonical(m)
                &&& x.pool == m.pool
                &&& x.index == m.index
                &&& x.unknown == stray_fields(m.pool, m.index, m.fields) + m.unknown
                &&& settled(m) ==> x.unknown == m.unknown
                &&& settled(m) || strays_last(m) ==> message_bytes(x) == message_bytes(m)
            }
        }),
{
    let o = default_options();
    let m = decoded(pool, index, s, o)->Ok_0;
    let depth = o.recursion_limit as nat;
    law_decoded(pool, index, s, o);
    law_decoded_covered(pool, index, s, o);
    lemma_regular_readable(m, depth, depth);
    law_unpack_pack(m);
    law_reencode_again(pool, index, s, o);
}

// ── JSON ────────────────────────────────────────────────────────────────────

/// Arrays and objects nest in the value at most `h` deep.
pub open spec fn nests_within(j: JsonModel, h: nat) -> bool
    decreases j,
{
    match j {
        JsonModel::Array(a) => h > 0 && forall|i: int|
            0 <= i < a.len() ==> nests_within(#[trigger] a[i], (h - 1) as nat),
        JsonModel::Object(o) => h > 0 && forall|i: int|
            0 <= i < o.len() ==> nests_within((#[trigger] o[i]).1, (h - 1) as nat),
        _ => true,
    }
}

proof fn lemma_nests_more(j: JsonModel, h: nat, more: nat)
    requires
        nests_within(j, h),
        h <= more,
    ensures
        nests_within(j, more),
    decreases j,
{
    match j {
        JsonModel::Array(a) => {
            assert(decreases_to!(j => j->Array_0));
            assert forall|i: int| 0 <= i < a.len() implies nests_within(
                #[trigger] a[i],
                (more - 1) as nat,
            ) by {
                assert(decreases_to!(a => a[i]));
                lemma_nests_more(a[i], (h - 1) as nat, (more - 1) as nat);
            }
        },
        JsonModel::Object(o) => {
            assert(decreases_to!(j => j->Object_0));
            assert forall|i: int| 0 <= i < o.len() implies nests_within(
                (#[trigger] o[i]).1,
                (more - 1) as nat,
            ) by {
                assert(decreases_to!(o => o[i]));
                assert(decreases_to!(o[i] => o[i].1));
                lemma_nests_more(o[i].1, (h - 1) as nat, (more - 1) as nat);
            }
        },
        _ => {},
    }
}

/// The values of the members nest at most `h` deep.
spec fn members_within(o: Seq<(Seq<char>, JsonModel)>, h: nat) -> bool {
    forall|i: int| 0 <= i < o.len() ==> nests_within((#[trigger] o[i]).1, h)
}

/// The elements nest at most `h` deep.
spec fn items_within(a: Seq<JsonModel>, h: nat) -> bool {
    forall|i: int| 0 <= i < a.len() ==> nests_within(#[trigger] a[i], h)
}

/// However a message nests, and whatever the bytes of an `Any` in it hold: what
/// is written nests at most twice as deep as levels are left, and two more.
/// What nests deeper is an error.
pub proof fn law_json_nesting(m: MessageModel, depth: nat)
    ensures
        message_json(m, depth) matches Ok(j) ==> nests_within(j, 2 * depth + 2),
    decreases depth, 9nat, 0nat,
{
    match wkt_of(full_name(m)) {
        Some(w) => {
            lemma_wkt_nesting(w, m, depth);
        },
        None => {
            lemma_members_nesting(m, 0, depth);
        },
    }
}

proof fn lemma_nested_nesting(m: MessageModel, depth: nat)
    ensures
        nested_json(m, depth) matches Ok(j) ==> nests_within(j, 2 * depth),
    decreases depth, 0nat, 0nat,
{
    if depth > 0 {
        law_json_nesting(m, (depth - 1) as nat);
    }
}

proof fn lemma_members_nesting(m: MessageModel, i: nat, depth: nat)
    ensures
        members_json(m, i, depth) matches Ok(o) ==> members_within(o, 2 * depth + 1),
    decreases depth, 5nat, m.pool.message_seq()[m.index.0 as int].fields@.len() - i,
{
    let fields = m.pool.message_seq()[m.index.0 as int].fields@;
    if i < fields.len() {
        let fd = fields[i as int];
        lemma_members_nesting(m, i + 1, depth);
        if has_field(m, fd) {
            lemma_value_nesting(
                m.pool,
                fd,
                field_get(m.fields, fd.number)->Some_0,
                depth,
            );
        }
    }
}

proof fn lemma_value_nesting(
    pool: DescriptorPool,
    fd: FieldDescriptor,
    v: ValueModel,
    depth: nat,
)
    ensures
        value_json(pool, fd, v, depth) matches Ok(j) ==> nests_within(j, 2 * depth + 1),
    decreases depth, 4nat, 0nat,
{
    match (fd.kind, v) {
        (FieldKind::Singular(k), _) => {
            lemma_element_nesting(pool, k, v, depth);
            if let Ok(j) = element_json(pool, k, v, depth) {
                lemma_nests_more(j, 2 * depth, 2 * depth + 1);
            }
        },
        (FieldKind::List(k), ValueModel::List(l)) => {
            lemma_items_nesting(pool, k, l, 0, depth);
        },
        (FieldKind::Mapping { key, value }, ValueModel::Mapping(e)) => {
            lemma_entries_nesting(pool, value, e, 0, depth);
        },
        _ => {},
    }
}

proof fn lemma_element_nesting(
    pool: DescriptorPool,
    kind: SingularKind,
    v: ValueModel,
    depth: nat,
)
    ensures
        element_json(pool, kind, v, depth) matches Ok(j) ==> nests_within(j, 2 * depth),
    decreases depth, 1nat, 0nat,
{
    if let (SingularKind::Message(_), ValueModel::Message(x)) = (kind, v) {
        lemma_nested_nesting(x, depth);
    }
}

proof fn lemma_items_nesting(
    pool: DescriptorPool,
    kind: SingularKind,
    l: Seq<ValueModel>,
    i: nat,
    depth: nat,
)
    ensures
        items_json(pool, kind, l, i, depth) matches Ok(a) ==> items_within(a, 2 * depth),
    decreases depth, 2nat, l.len() - i,
{
    if i < l.len() {
        lemma_element_nesting(pool, kind, l[i as int], depth);
        lemma_items_nesting(pool, kind, l, i + 1, depth);
    }
}

proof fn lemma_entries_nesting(
    pool: DescriptorPool,
    kind: SingularKind,
    e: Seq<(KeyModel, ValueModel)>,
    i: nat,
    depth: nat,
)
    ensures
        entries_json(pool, kind, e, i, depth) matches Ok(o) ==> members_within(o, 2 * depth),
    decreases depth, 2nat, e.len() - i,
{
    if i < e.len() {
        lemma_element_nesting(pool, kind, e[i as int].1, depth);
        lemma_entries_nesting(pool, kind, e, i + 1, depth);
    }
}

proof fn lemma_wkt_nesting(w: WktKind, m: MessageModel, depth: nat)
    ensures
        wkt_json(w, m, depth) matches Ok(j) ==> nests_within(j, 2 * depth + 2),
    decreases depth, 8nat, 0nat,
{
    match w {
        WktKind::Struct => {
            if let Some(ValueModel::Mapping(e)) = field_get(m.fields, 1) {
                lemma_struct_nesting(e, 0, depth);
                if let Ok(j) = wkt_json(w, m, depth) {
                    lemma_nests_more(j, 2 * depth + 1, 2 * depth + 2);
                }
            }
        },
        WktKind::ListValue => {
            if let Some(ValueModel::List(l)) = field_get(m.fields, 1) {
                lemma_list_nesting(l, 0, depth);
                if let Ok(j) = wkt_json(w, m, depth) {
                    lemma_nests_more(j, 2 * depth + 1, 2 * depth + 2);
                }
            }
        },
        WktKind::JsonValue => {
            lemma_dynamic_nesting(m, depth);
        },
        WktKind::Any => {
            lemma_any_nesting(m, depth);
        },
        WktKind::Wrapper(s) => {},
        _ => {},
    }
}

proof fn lemma_struct_nesting(e: Seq<(KeyModel, ValueModel)>, i: nat, depth: nat)
    ensures
        struct_json(e, i, depth) matches Ok(o) ==> members_within(o, 2 * depth),
    decreases depth, 2nat, e.len() - i,
{
    if i < e.len() {
        if let ValueModel::Message(x) = e[i as int].1 {
            lemma_nested_nesting(x, depth);
            lemma_struct_nesting(e, i + 1, depth);
        }
    }
}

proof fn lemma_list_nesting(l: Seq<ValueModel>, i: nat, depth: nat)
    ensures
        list_json(l, i, depth) matches Ok(a) ==> items_within(a, 2 * depth),
    decreases depth, 2nat, l.len() - i,
{
    if i < l.len() {
        if let ValueModel::Message(x) = l[i as int] {
            lemma_nested_nesting(x, depth);
            lemma_list_nesting(l, i + 1, depth);
        }
    }
}

proof fn lemma_dynamic_nesting(m: MessageModel, depth: nat)
    ensures
        dynamic_json(m, depth) matches Ok(j) ==> nests_within(j, 2 * depth + 2),
    decreases depth, 7nat, 0nat,
{
    if let Some(ValueModel::Message(x)) = field_get(m.fields, 5) {
        lemma_nested_nesting(x, depth);
        if let Ok(j) = nested_json(x, depth) {
            lemma_nests_more(j, 2 * depth, 2 * depth + 2);
        }
    }
    if let Some(ValueModel::Message(x)) = field_get(m.fields, 6) {
        lemma_nested_nesting(x, depth);
        if let Ok(j) = nested_json(x, depth) {
            lemma_nests_more(j, 2 * depth, 2 * depth + 2);
        }
    }
}

proof fn lemma_any_nesting(m: MessageModel, depth: nat)
    ensures
        any_json(m, depth) matches Ok(j) ==> nests_within(j, 2 * depth + 2),
    decreases depth, 7nat, 0nat,
{
    let url = text_at(m, 1);
    let bytes = bytes_at(m, 2);
    if !(url.len() == 0 && bytes.len() == 0) && depth > 0 {
        if let Some(i) = any_type(m.pool, url) {
            if let Ok(x) = decoded(m.pool, i, bytes, depth_options((depth - 1) as u32)) {
                lemma_payload_nesting(url, x, (depth - 1) as nat);
                if let Ok(j) = payload_json(url, x, (depth - 1) as nat) {
                    lemma_nests_more(j, 2 * (depth - 1) as nat + 3, 2 * depth + 2);
                }
            }
        }
    }
}

proof fn lemma_payload_nesting(url: Seq<char>, x: MessageModel, depth: nat)
    ensures
        payload_json(url, x, depth) matches Ok(j) ==> nests_within(j, 2 * depth + 3),
    decreases depth, 10nat, 0nat,
{
    let head = ("@type"@, JsonModel::Text(url));
    law_json_nesting(x, depth);
    lemma_members_nesting(x, 0, depth);
    if let Ok(o) = members_json(x, 0, depth) {
        let all = seq![head] + o;
        assert forall|i: int| 0 <= i < all.len() implies nests_within(
            (#[trigger] all[i]).1,
            2 * depth + 2,
        ) by {
            if i > 0 {
                assert(all[i] == o[i - 1]);
                lemma_nests_more(o[i - 1].1, 2 * depth + 1, 2 * depth + 2);
            }
        }
        assert(nests_within(JsonModel::Object(all), 2 * depth + 3));
    }
    if let Ok(j) = message_json(x, depth) {
        let two = seq![head, ("value"@, j)];
        assert forall|i: int| 0 <= i < two.len() implies nests_within(
            (#[trigger] two[i]).1,
            2 * depth + 2,
        ) by {
            assert(two[0] == head);
        }
        assert(nests_within(JsonModel::Object(two), 2 * depth + 3));
    }
    assert(spread_json(head, x, depth) matches Ok(j) ==> nests_within(j, 2 * depth + 3));
}

/// What an object is read as for an `Any` does not depend on where `"@type"`
/// stands among its other members. What is read holds the text under `"@type"`
/// as it was given, and bytes, and nothing else.
pub proof fn law_type_anywhere(
    pool: DescriptorPool,
    index: MessageIndex,
    t: (Seq<char>, InputModel),
    a: Seq<(Seq<char>, InputModel)>,
    b: Seq<(Seq<char>, InputModel)>,
    c: Seq<(Seq<char>, InputModel)>,
    d: Seq<(Seq<char>, InputModel)>,
    lenient: bool,
)
    requires
        t.0 == "@type"@,
        a + b == c + d,
        forall|i: int| 0 <= i < (a + b).len() ==> (#[trigger] (a + b)[i]).0 != "@type"@,
    ensures
        any_from(pool, index, a.push(t) + b, lenient) == any_from(
            pool,
            index,
            c.push(t) + d,
            lenient,
        ),
        any_from(pool, index, a.push(t) + b, lenient) matches Ok(m) ==> {
            &&& t.1 is Text
            &&& m.fields == seq![
                (1u32, ValueModel::Text(t.1->Text_0)),
                (2u32, ValueModel::Bytes(bytes_at(m, 2))),
            ]
            &&& m.unknown.len() == 0
        },
{
    let all = buffered_members(a.push(t) + b);
    assert forall|i: int| 0 <= i < b.len() implies (#[trigger] b[i]).0 != t.0 by {
        assert((a + b)[a.len() + i] == b[i]);
    }
    assert forall|i: int| 0 <= i < d.len() implies (#[trigger] d[i]).0 != t.0 by {
        assert((c + d)[c.len() + i] == d[i]);
    }
    lemma_member_moved(a, t, b);
    lemma_member_moved(c, t, d);
    assert(all == buffered_members(c.push(t) + d));
    assert(any_from(pool, index, a.push(t) + b, lenient) == any_from(
        pool,
        index,
        c.push(t) + d,
        lenient,
    ));
    lemma_buffered_keys(a + b, "@type"@);
    lemma_put_found(buffered_members(a + b), t.0, buffered(t.1));
    if let Ok(m) = any_from(pool, index, a.push(t) + b, lenient) {
        let p = member_at(all, "@type"@, 0)->Some_0;
        assert(all[p as int].1 == buffered(t.1));
        let url = all[p as int].1->Text_0;
        let x = empty_message(pool, index);
        assert(with_field(x, 1, ValueModel::Text(url)).fields =~= seq![
            (1u32, ValueModel::Text(url)),
        ]);
        assert forall|y: Seq<u8>|
            #[trigger] with_field(
                with_field(x, 1, ValueModel::Text(url)),
                2,
                ValueModel::Bytes(y),
            ).fields == seq![(1u32, ValueModel::Text(url)), (2u32, ValueModel::Bytes(y))] by {
            reveal_with_fuel(field_get, 2);
            reveal_with_fuel(field_insert, 2);
            assert(with_field(
                with_field(x, 1, ValueModel::Text(url)),
                2,
                ValueModel::Bytes(y),
            ).fields =~= seq![(1u32, ValueModel::Text(url)), (2u32, ValueModel::Bytes(y))]);
        }
    }
}

/// Reading members as a whole makes no keys.
proof fn lemma_buffered_keys(o: Seq<(Seq<char>, InputModel)>, k: Seq<char>)
    requires
        forall|i: int| 0 <= i < o.len() ==> (#[trigger] o[i]).0 != k,
    ensures
        forall|i: int|
            0 <= i < buffered_members(o).len() ==> (#[trigger] buffered_members(o)[i]).0 != k,
    decreases o.len(),
{
    if o.len() > 0 {
        let u = o[o.len() - 1];
        lemma_buffered_keys(o.drop_last(), k);
        lemma_put_keys(buffered_members(o.drop_last()), u.0, buffered(u.1), k);
    }
}

proof fn lemma_put_keys(
    s: Seq<(Seq<char>, InputModel)>,
    k: Seq<char>,
    v: InputModel,
    other: Seq<char>,
)
    requires
        k != other,
        forall|i: int| 0 <= i < s.len() ==> (#[trigger] s[i]).0 != other,
    ensures
        forall|i: int|
            0 <= i < member_put(s, k, v).len() ==> (#[trigger] member_put(s, k, v)[i]).0 != other,
    decreases s.len(),
{
    let r = member_put(s, k, v);
    if s.len() > 0 {
        let t = s.drop_last();
        let u = member_put(t, k, v);
        lemma_put_keys(t, k, v, other);
        assert(s[s.len() - 1].0 != other);
        assert forall|i: int| 0 <= i < r.len() implies (#[trigger] r[i]).0 != other by {
            if r == s.push((k, v)) {
                assert(i < s.len() ==> r[i] == s[i]);
            } else if r == t.push((k, v)) {
                assert(i < t.len() ==> r[i] == s[i]);
            } else if i < u.len() {
                assert(r[i] == u[i]);
            }
        }
    }
}

/// The member that was put last is found.
proof fn lemma_put_found(s: Seq<(Seq<char>, InputModel)>, k: Seq<char>, v: InputModel)
    requires
        forall|j: int| 0 <= j < s.len() ==> (#[trigger] s[j]).0 != k,
    ensures
        member_at(member_put(s, k, v), k, 0) matches Some(p) && p < member_put(s, k, v).len()
            && member_put(s, k, v)[p as int] == (k, v),
{
    lemma_put_is_there(s, k, v);
    let r = member_put(s, k, v);
    let p = choose|p: int|
        0 <= p < r.len() && #[trigger] r[p] == (k, v) && forall|j: int|
            0 <= j < r.len() && j != p ==> (#[trigger] r[j]).0 != k;
    lemma_found_at(r, k, p, 0);
}

proof fn lemma_found_at(r: Seq<(Seq<char>, InputModel)>, k: Seq<char>, p: int, i: nat)
    requires
        i <= p < r.len(),
        r[p].0 == k,
        forall|j: int| 0 <= j < r.len() && j != p ==> (#[trigger] r[j]).0 != k,
    ensures
        member_at(r, k, i) == Some(p as nat),
    decreases p - i,
{
    if i < p {
        assert(r[i as int].0 != k);
        lemma_found_at(r, k, p, i + 1);
    }
}

proof fn lemma_put_is_there(s: Seq<(Seq<char>, InputModel)>, k: Seq<char>, v: InputModel)
    requires
        forall|j: int| 0 <= j < s.len() ==> (#[trigger] s[j]).0 != k,
    ensures
        exists|p: int|
            0 <= p < member_put(s, k, v).len() && #[trigger] member_put(s, k, v)[p] == (k, v)
                && forall|j: int|
                0 <= j < member_put(s, k, v).len() && j != p ==> (
                #[trigger] member_put(s, k, v)[j]).0 != k,
    decreases s.len(),
{
    let r = member_put(s, k, v);
    if s.len() == 0 || bytes_before(encode_utf8(s.last().0), encode_utf8(k)) {
        assert(r[s.len() as int] == (k, v));
        assert forall|j: int| 0 <= j < r.len() && j != s.len() implies (#[trigger] r[j]).0 != k by {
            assert(s[j].0 != k);
        }
    } else {
        let t = s.drop_last();
        assert(s[s.len() - 1].0 != k);
        lemma_put_is_there(t, k, v);
        let u = member_put(t, k, v);
        let p = choose|p: int|
            0 <= p < u.len() && #[trigger] u[p] == (k, v) && forall|j: int|
                0 <= j < u.len() && j != p ==> (#[trigger] u[j]).0 != k;
        assert(r[p] == (k, v));
        assert forall|j: int| 0 <= j < r.len() && j != p implies (#[trigger] r[j]).0 != k by {
            if j < u.len() {
                assert(u[j].0 != k);
            }
        }
    }
}

/// The payload of an `Any` takes one of the levels that are left, and its bytes
/// are decoded with the others: what nests too deep in them is the same error
/// as any other nesting.
pub proof fn law_any_shares_levels(m: MessageModel, depth: nat)
    requires
        text_at(m, 1).len() > 0,
        any_type(m.pool, text_at(m, 1)) is Some,
        depth == 0 || decoded(
            m.pool,
            any_type(m.pool, text_at(m, 1))->Some_0,
            bytes_at(m, 2),
            depth_options((depth - 1) as u32),
        ) == Err::<MessageModel, DecodeError>(DecodeError::RecursionLimitExceeded),
    ensures
        any_json(m, depth) == Err::<JsonModel, Seq<char>>(too_deep()),
{
}

} // verus!
