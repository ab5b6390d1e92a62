//! JSON values in messages: `google.protobuf.Value`, `Struct` and `ListValue`
//! hold any JSON value, and give back what they were given.
use vstd::prelude::*;
use crate::buffered::{height, lemma_element_height, lemma_member_height};
use crate::descriptor::{index_of, lemma_message_at, DescriptorPool, MessageIndex};
use crate::from_json::{dynamic_from, list_items, message_from, struct_entries};
use crate::json::{double_is_finite, reads_as, InputModel, JsonModel};
use crate::map::{
    entries_sorted, entry_put, key_before, lemma_normal_entries_id, lemma_normal_entries_sorted,
    normal_entries,
};
use crate::merge_kept::{entry_among, lemma_normal_among};
use crate::to_json::{list_json, message_json, nested_json, struct_json};
use crate::value::{
    empty_message, field_get, lemma_value_holds, with_field, KeyModel, MessageModel, ValueModel,
};
use crate::wkt::{wkt_of, WktKind};

verus! {

// ── Messages that hold JSON values ──────────────────────────────────────────

/// The message is a `google.protobuf.Value` that holds one JSON value.
pub open spec fn holds_value(m: MessageModel) -> bool
    decreases m,
{
    &&& index_of(m.pool, "google.protobuf.Value"@) == Some(m.index)
    &&& m.unknown.len() == 0
    &&& m.fields.len() == 1
    &&& match m.fields[0].1 {
        ValueModel::EnumNumber(n) => m.fields[0].0 == 1 && n == 0,
        ValueModel::F64(_) => m.fields[0].0 == 2,
        ValueModel::Text(_) => m.fields[0].0 == 3,
        ValueModel::Bool(_) => m.fields[0].0 == 4,
        ValueModel::Message(x) => x.pool == m.pool && (m.fields[0].0 == 5 && holds_object(x)
            || m.fields[0].0 == 6 && holds_array(x)),
        _ => false,
    }
}

/// The message is a `google.protobuf.Struct` that holds JSON values by key.
pub open spec fn holds_object(m: MessageModel) -> bool
    decreases m,
{
    &&& index_of(m.pool, "google.protobuf.Struct"@) == Some(m.index)
    &&& m.unknown.len() == 0
    &&& m.fields.len() == 1
    &&& m.fields[0].0 == 1
    &&& match m.fields[0].1 {
        ValueModel::Mapping(e) => entries_sorted(e) && forall|k: int|
            0 <= k < e.len() ==> (#[trigger] e[k]).0 is Text && match e[k].1 {
                ValueModel::Message(x) => x.pool == m.pool && holds_value(x),
                _ => false,
            },
        _ => false,
    }
}

/// The message is a `google.protobuf.ListValue` that holds JSON values.
pub open spec fn holds_array(m: MessageModel) -> bool
    decreases m,
{
    &&& index_of(m.pool, "google.protobuf.ListValue"@) == Some(m.index)
    &&& m.unknown.len() == 0
    &&& m.fields.len() == 1
    &&& m.fields[0].0 == 1
    &&& match m.fields[0].1 {
        ValueModel::List(l) => forall|k: int|
            0 <= k < l.len() ==> match #[trigger] l[k] {
                ValueModel::Message(x) => x.pool == m.pool && holds_value(x),
                _ => false,
            },
        _ => false,
    }
}

proof fn lemma_names(pool: DescriptorPool)
    requires
        pool.message_seq().len() <= usize::MAX,
    ensures
        index_of(pool, "google.protobuf.Value"@) matches Some(i) ==> wkt_of(
            pool.message_seq()[i.0 as int].full_name@,
        ) == Some(WktKind::JsonValue),
        index_of(pool, "google.protobuf.Struct"@) matches Some(i) ==> wkt_of(
            pool.message_seq()[i.0 as int].full_name@,
        ) == Some(WktKind::Struct),
        index_of(pool, "google.protobuf.ListValue"@) matches Some(i) ==> wkt_of(
            pool.message_seq()[i.0 as int].full_name@,
        ) == Some(WktKind::ListValue),
{
    lemma_message_at(pool.message_seq(), "google.protobuf.Value"@, 0);
    lemma_message_at(pool.message_seq(), "google.protobuf.Struct"@, 0);
    lemma_message_at(pool.message_seq(), "google.protobuf.ListValue"@, 0);
    reveal_strlit("google.protobuf.Timestamp");
    reveal_strlit("google.protobuf.Duration");
    reveal_strlit("google.protobuf.FieldMask");
    reveal_strlit("google.protobuf.Empty");
    reveal_strlit("google.protobuf.Struct");
    reveal_strlit("google.protobuf.Value");
    reveal_strlit("google.protobuf.ListValue");
    assert("google.protobuf.Struct"@.len() == 22);
    assert("google.protobuf.Timestamp"@.len() == 25);
    assert("google.protobuf.Duration"@.len() == 24);
    assert("google.protobuf.FieldMask"@.len() == 25);
    assert("google.protobuf.Empty"@.len() == 21);
    assert("google.protobuf.Value"@.len() == 21);
    assert("google.protobuf.ListValue"@.len() == 25);
    assert("google.protobuf.Value"@[16] != "google.protobuf.Empty"@[16]);
    assert("google.protobuf.ListValue"@[16] != "google.protobuf.Timestamp"@[16]);
    assert("google.protobuf.ListValue"@[16] != "google.protobuf.FieldMask"@[16]);
}

/// What is read of a message with one field.
proof fn lemma_one_field(m: MessageModel, n: u32)
    requires
        m.fields.len() == 1,
        m.unknown.len() == 0,
    ensures
        field_get(m.fields, n) == if m.fields[0].0 == n {
            Some(m.fields[0].1)
        } else {
            None
        },
        with_field(empty_message(m.pool, m.index), m.fields[0].0, m.fields[0].1) == m,
{
    reveal_with_fuel(field_get, 2);
    let w = with_field(empty_message(m.pool, m.index), m.fields[0].0, m.fields[0].1);
    assert(w.fields =~= m.fields);
    assert(w.unknown =~= m.unknown);
}

// ── Writing, then reading ───────────────────────────────────────────────────

/// What is written of a `Value`, a `Struct` or a `ListValue` that holds JSON
/// values reads as the same message.
pub proof fn law_value_reread(m: MessageModel, depth: nat, i: InputModel, lenient: bool)
    requires
        m.pool.message_seq().len() <= usize::MAX,
        index_of(m.pool, "google.protobuf.Value"@) is Some,
        holds_value(m) || holds_object(m) || holds_array(m),
        message_json(m, depth) is Ok,
        reads_as(message_json(m, depth)->Ok_0, i),
    ensures
        message_from(m.pool, m.index, i, lenient) == Ok::<MessageModel, Seq<char>>(m),
    decreases m, 1nat, 0nat,
{
    lemma_names(m.pool);
    lemma_one_field(m, 1);
    assert(decreases_to!(m => m.fields));
    assert(decreases_to!(m.fields => m.fields[0]));
    assert(decreases_to!(m.fields[0] => m.fields[0].1));
    let v = m.fields[0].1;
    lemma_value_holds(v);
    if holds_value(m) {
        if let ValueModel::Message(x) = v {
            lemma_nested_value(m, depth);
            law_value_reread(x, (depth - 1) as nat, i, false);
            lemma_nested_from(m, i, lenient);
        } else {
            lemma_scalar_reread(m, depth, i, lenient);
        }
    } else if holds_object(m) {
        let e = v->Mapping_0;
        lemma_struct_len(e, 0, depth);
        lemma_object_reread(m, depth, 0, i->Object_0);
        assert(e.skip(0) =~= e);
        lemma_normal_entries_id(e);
    } else {
        let l = v->List_0;
        lemma_list_len(l, 0, depth);
        lemma_array_reread(m, depth, 0, i->Array_0);
        assert(l.skip(0) =~= l);
    }
}

proof fn lemma_scalar_reread(m: MessageModel, depth: nat, i: InputModel, lenient: bool)
    requires
        m.pool.message_seq().len() <= usize::MAX,
        holds_value(m),
        !(m.fields[0].1 is Message),
        message_json(m, depth) is Ok,
        reads_as(message_json(m, depth)->Ok_0, i),
    ensures
        message_from(m.pool, m.index, i, lenient) == Ok::<MessageModel, Seq<char>>(m),
{
    lemma_names(m.pool);
    lemma_one_field(m, 1);
    lemma_one_field(m, 2);
    lemma_one_field(m, 3);
    lemma_one_field(m, 4);
    lemma_one_field(m, 5);
    lemma_one_field(m, 6);
}

/// A `Value` that holds a message is written as that message.
proof fn lemma_nested_value(m: MessageModel, depth: nat)
    requires
        m.pool.message_seq().len() <= usize::MAX,
        holds_value(m),
        m.fields[0].1 is Message,
    ensures
        message_json(m, depth) == nested_json(m.fields[0].1->Message_0, depth),
{
    lemma_names(m.pool);
    lemma_one_field(m, 1);
    lemma_one_field(m, 2);
    lemma_one_field(m, 3);
    lemma_one_field(m, 4);
    lemma_one_field(m, 5);
    lemma_one_field(m, 6);
}

/// A `Value` that holds a message is read where that message is.
proof fn lemma_nested_from(m: MessageModel, i: InputModel, lenient: bool)
    requires
        m.pool.message_seq().len() <= usize::MAX,
        holds_value(m),
        m.fields[0].1 is Message,
        message_from(m.pool, m.fields[0].1->Message_0.index, i, false) == Ok::<
            MessageModel,
            Seq<char>,
        >(m.fields[0].1->Message_0),
    ensures
        message_from(m.pool, m.index, i, lenient) == Ok::<MessageModel, Seq<char>>(m),
{
    lemma_names(m.pool);
    lemma_one_field(m, 5);
}

proof fn lemma_struct_len(e: Seq<(KeyModel, ValueModel)>, k: nat, depth: nat)
    requires
        k <= e.len(),
    ensures
        struct_json(e, k, depth) matches Ok(s) ==> s.len() + k == e.len(),
    decreases e.len() - k,
{
    if k < e.len() {
        lemma_struct_len(e, k + 1, depth);
    }
}

proof fn lemma_list_len(l: Seq<ValueModel>, k: nat, depth: nat)
    requires
        k <= l.len(),
    ensures
        list_json(l, k, depth) matches Ok(s) ==> s.len() + k == l.len(),
    decreases l.len() - k,
{
    if k < l.len() {
        lemma_list_len(l, k + 1, depth);
    }
}

proof fn lemma_object_reread(
    m: MessageModel,
    depth: nat,
    k: nat,
    o: Seq<(Seq<char>, InputModel)>,
)
    requires
        m.pool.message_seq().len() <= usize::MAX,
        index_of(m.pool, "google.protobuf.Value"@) is Some,
        holds_object(m),
        k <= m.fields[0].1->Mapping_0.len() == o.len(),
        struct_json(m.fields[0].1->Mapping_0, k, depth) matches Ok(s) && s.len() + k == o.len()
            && forall|q: int|
            0 <= q < s.len() ==> (#[trigger] s[q]).0 == o[q + k].0 && reads_as(s[q].1, o[q + k].1),
    ensures
        struct_entries(m.pool, index_of(m.pool, "google.protobuf.Value"@)->Some_0, o, k) == Ok::<
            Seq<(KeyModel, ValueModel)>,
            Seq<char>,
        >(m.fields[0].1->Mapping_0.skip(k as int)),
    decreases m, 0nat, o.len() - k,
{
    let e = m.fields[0].1->Mapping_0;
    let v = index_of(m.pool, "google.protobuf.Value"@)->Some_0;
    if k < e.len() {
        let x = e[k as int].1->Message_0;
        let s = struct_json(e, k, depth)->Ok_0;
        let more = struct_json(e, k + 1, depth)->Ok_0;
        assert(e[k as int].0 is Text && e[k as int].1 is Message);
        assert(s == seq![(e[k as int].0->Text_0, nested_json(x, depth)->Ok_0)] + more);
        assert forall|q: int| 0 <= q < more.len() implies (#[trigger] more[q]).0 == o[q + k + 1].0
            && reads_as(more[q].1, o[q + k + 1].1) by {
            assert(s[q + 1] == more[q]);
        }
        assert(s[0].0 == o[k as int].0 && reads_as(s[0].1, o[k as int].1));
        assert(decreases_to!(m => m.fields));
        assert(decreases_to!(m.fields => m.fields[0]));
        assert(decreases_to!(m.fields[0] => m.fields[0].1));
        lemma_value_holds(m.fields[0].1);
        lemma_value_holds(e[k as int].1);
        law_value_reread(x, (depth - 1) as nat, o[k as int].1, false);
        lemma_object_reread(m, depth, k + 1, o);
        assert(seq![e[k as int]] + e.skip((k + 1) as int) =~= e.skip(k as int));
    } else {
        assert(e.skip(k as int) =~= Seq::empty());
    }
}

proof fn lemma_array_reread(m: MessageModel, depth: nat, k: nat, a: Seq<InputModel>)
    requires
        m.pool.message_seq().len() <= usize::MAX,
        index_of(m.pool, "google.protobuf.Value"@) is Some,
        holds_array(m),
        k <= m.fields[0].1->List_0.len() == a.len(),
        list_json(m.fields[0].1->List_0, k, depth) matches Ok(s) && s.len() + k == a.len()
            && forall|q: int| 0 <= q < s.len() ==> reads_as(#[trigger] s[q], a[q + k]),
    ensures
        list_items(m.pool, index_of(m.pool, "google.protobuf.Value"@)->Some_0, a, k) == Ok::<
            Seq<ValueModel>,
            Seq<char>,
        >(m.fields[0].1->List_0.skip(k as int)),
    decreases m, 0nat, a.len() - k,
{
    let l = m.fields[0].1->List_0;
    if k < l.len() {
        let x = l[k as int]->Message_0;
        let s = list_json(l, k, depth)->Ok_0;
        let more = list_json(l, k + 1, depth)->Ok_0;
        assert(l[k as int] is Message);
        assert(s == seq![nested_json(x, depth)->Ok_0] + more);
        assert forall|q: int| 0 <= q < more.len() implies reads_as(
            #[trigger] more[q],
            a[q + k + 1],
        ) by {
            assert(s[q + 1] == more[q]);
        }
        assert(reads_as(s[0], a[k as int]));
        assert(decreases_to!(m => m.fields));
        assert(decreases_to!(m.fields => m.fields[0]));
        assert(decreases_to!(m.fields[0] => m.fields[0].1));
        lemma_value_holds(m.fields[0].1);
        lemma_value_holds(l[k as int]);
        law_value_reread(x, (depth - 1) as nat, a[k as int], false);
        lemma_array_reread(m, depth, k + 1, a);
        assert(seq![l[k as int]] + l.skip((k + 1) as int) =~= l.skip(k as int));
    } else {
        assert(l.skip(k as int) =~= Seq::empty());
    }
}

// ── Reading, then writing ───────────────────────────────────────────────────

/// The numbers in the value are finite, and no object in it has a key twice.
pub open spec fn is_tidy(i: InputModel) -> bool
    decreases i,
{
    match i {
        InputModel::Number(n) => double_is_finite(n.double),
        InputModel::Array(a) => forall|k: int| 0 <= k < a.len() ==> is_tidy(#[trigger] a[k]),
        InputModel::Object(o) => {
            &&& forall|p: int, q: int|
                0 <= p < q < o.len() ==> (#[trigger] o[p]).0 != (#[trigger] o[q]).0
            &&& forall|k: int| 0 <= k < o.len() ==> is_tidy((#[trigger] o[k]).1)
        },
        _ => true,
    }
}

/// The keys of every object in the value increase.
pub open spec fn in_order(i: InputModel) -> bool
    decreases i,
{
    match i {
        InputModel::Array(a) => forall|k: int| 0 <= k < a.len() ==> in_order(#[trigger] a[k]),
        InputModel::Object(o) => {
            &&& forall|p: int, q: int|
                0 <= p < q < o.len() ==> key_before(
                    KeyModel::Text((#[trigger] o[p]).0),
                    KeyModel::Text((#[trigger] o[q]).0),
                )
            &&& forall|k: int| 0 <= k < o.len() ==> in_order((#[trigger] o[k]).1)
        },
        _ => true,
    }
}

/// `i` and `j` are the same JSON value, in whatever order the members of their
/// objects stand.
pub open spec fn same_json(j: JsonModel, i: InputModel) -> bool
    decreases j,
{
    match (j, i) {
        (JsonModel::Array(a), InputModel::Array(b)) => a.len() == b.len() && forall|k: int|
            0 <= k < a.len() ==> same_json(#[trigger] a[k], b[k]),
        (JsonModel::Object(a), InputModel::Object(b)) => a.len() == b.len() && forall|k: int|
            0 <= k < b.len() ==> exists|p: int|
                0 <= p < a.len() && (#[trigger] a[p]).0 == (#[trigger] b[k]).0 && same_json(
                    a[p].1,
                    b[k].1,
                ),
        _ => reads_as(j, i),
    }
}

/// The pool holds the types that JSON values are read as.
pub open spec fn knows_json(pool: DescriptorPool) -> bool {
    &&& pool.message_seq().len() <= usize::MAX
    &&& index_of(pool, "google.protobuf.Value"@) is Some
    &&& index_of(pool, "google.protobuf.Struct"@) is Some
    &&& index_of(pool, "google.protobuf.ListValue"@) is Some
}

/// `m` holds the JSON value `i`, and with `depth` levels it is written as `i`;
/// with the members of objects in the same order, if they were in the order of
/// their keys.
pub open spec fn written_as(
    m: MessageModel,
    pool: DescriptorPool,
    depth: nat,
    i: InputModel,
) -> bool {
    &&& m.pool == pool
    &&& holds_value(m)
    &&& message_json(m, depth) matches Ok(j) && same_json(j, i) && (in_order(i) ==> reads_as(j, i))
}

/// Every JSON value in which numbers are finite and no object has a key twice
/// can be read as a `google.protobuf.Value`, and is written again as the same
/// value, if two levels are left for each array or object inside another.
pub proof fn law_json_held(pool: DescriptorPool, i: InputModel, depth: nat, lenient: bool)
    requires
        knows_json(pool),
        is_tidy(i),
        2 * height(i) <= depth,
    ensures
        message_from(pool, index_of(pool, "google.protobuf.Value"@)->Some_0, i, lenient) matches Ok(
            m,
        ) && written_as(m, pool, depth, i),
    decreases height(i), 2nat, 0nat,
{
    lemma_names(pool);
    match i {
        InputModel::Array(a) => {
            lemma_array_value(pool, a, depth);
        },
        InputModel::Object(o) => {
            lemma_object_value(pool, o, depth);
        },
        _ => {
            lemma_scalar_held(pool, i, depth);
        },
    }
}

proof fn lemma_array_value(pool: DescriptorPool, a: Seq<InputModel>, depth: nat)
    requires
        knows_json(pool),
        is_tidy(InputModel::Array(a)),
        2 * height(InputModel::Array(a)) <= depth,
    ensures
        dynamic_from(
            pool,
            index_of(pool, "google.protobuf.Value"@)->Some_0,
            InputModel::Array(a),
        ) matches Ok(m) && written_as(m, pool, depth, InputModel::Array(a)),
    decreases height(InputModel::Array(a)), 1nat, 0nat,
{
    let v = index_of(pool, "google.protobuf.Value"@)->Some_0;
    let m = dynamic_from(pool, v, InputModel::Array(a))->Ok_0;
    lemma_names(pool);
    let x = index_of(pool, "google.protobuf.ListValue"@)->Some_0;
    lemma_array_held(pool, a, 0, (depth - 2) as nat);
    let l = list_items(pool, v, a, 0)->Ok_0;
    let w = with_field(empty_message(pool, x), 1, ValueModel::List(l));
    lemma_held_in(pool, x, 1, ValueModel::List(l));
    lemma_held_in(pool, v, 6, ValueModel::Message(w));
    lemma_list_written(l, 0, (depth - 2) as nat);
    let s = list_json(l, 0, (depth - 1) as nat)->Ok_0;
    assert forall|q: int| 0 <= q < l.len() implies match #[trigger] l[q] {
        ValueModel::Message(y) => y.pool == pool && holds_value(y),
        _ => false,
    } by {
        assert(written_as(l[q]->Message_0, pool, (depth - 2) as nat, a[q + 0]));
    }
    assert(w.fields[0].1 == ValueModel::List(l));
    assert(holds_array(w));
    assert(m.fields[0].1 == ValueModel::Message(w));
    assert(holds_value(m));
    lemma_nested_value(m, depth);
    lemma_one_field(w, 1);
    assert(message_json(w, (depth - 1) as nat) == Ok::<JsonModel, Seq<char>>(
        JsonModel::Array(s),
    ));
    assert forall|q: int| 0 <= q < s.len() implies same_json(#[trigger] s[q], a[q]) && (
    in_order(InputModel::Array(a)) ==> reads_as(s[q], a[q])) by {
        assert(written_as(l[q]->Message_0, pool, (depth - 2) as nat, a[q + 0]));
        assert(in_order(InputModel::Array(a)) ==> in_order(a[q]));
    }
}

proof fn lemma_object_value(pool: DescriptorPool, o: Seq<(Seq<char>, InputModel)>, depth: nat)
    requires
        knows_json(pool),
        is_tidy(InputModel::Object(o)),
        2 * height(InputModel::Object(o)) <= depth,
    ensures
        dynamic_from(
            pool,
            index_of(pool, "google.protobuf.Value"@)->Some_0,
            InputModel::Object(o),
        ) matches Ok(m) && written_as(m, pool, depth, InputModel::Object(o)),
    decreases height(InputModel::Object(o)), 1nat, 0nat,
{
    let v = index_of(pool, "google.protobuf.Value"@)->Some_0;
    let x = index_of(pool, "google.protobuf.Struct"@)->Some_0;
    let d = (depth - 2) as nat;
    let m = dynamic_from(pool, v, InputModel::Object(o))->Ok_0;
    lemma_names(pool);
    lemma_object_held(pool, o, 0, d);
    let e = struct_entries(pool, v, o, 0)->Ok_0;
    assert forall|k: int| 0 <= k < e.len() implies (#[trigger] e[k]).0 == KeyModel::Text(o[k].0)
        && e[k].1 is Message && written_as(e[k].1->Message_0, pool, d, o[k].1) by {
        assert(e[k].0 == KeyModel::Text(o[k + 0].0));
    }
    let r = normal_entries(e);
    lemma_normal_held(pool, o, e, d);
    lemma_object_written(pool, o, e, d);
    if in_order(InputModel::Object(o)) {
        lemma_ordered_written(pool, o, e, d);
    }
    let w = with_field(empty_message(pool, x), 1, ValueModel::Mapping(r));
    lemma_held_in(pool, x, 1, ValueModel::Mapping(r));
    lemma_held_in(pool, v, 5, ValueModel::Message(w));
    assert(w.fields[0].1 == ValueModel::Mapping(r));
    assert(holds_object(w));
    assert(m.fields[0].1 == ValueModel::Message(w));
    assert(holds_value(m));
    lemma_nested_value(m, depth);
    lemma_one_field(w, 1);
    assert(message_json(w, (depth - 1) as nat) == Ok::<JsonModel, Seq<char>>(
        JsonModel::Object(struct_json(r, 0, (depth - 1) as nat)->Ok_0),
    ));
}

/// The entries were read from the members, one from each.
spec fn read_from(
    pool: DescriptorPool,
    o: Seq<(Seq<char>, InputModel)>,
    e: Seq<(KeyModel, ValueModel)>,
    d: nat,
) -> bool {
    &&& e.len() == o.len()
    &&& forall|k: int|
        0 <= k < e.len() ==> (#[trigger] e[k]).0 == KeyModel::Text(o[k].0) && e[k].1 is Message
            && written_as(e[k].1->Message_0, pool, d, o[k].1)
}

/// Entries that were read hold JSON values when they are put in order, too.
proof fn lemma_normal_held(
    pool: DescriptorPool,
    o: Seq<(Seq<char>, InputModel)>,
    e: Seq<(KeyModel, ValueModel)>,
    d: nat,
)
    requires
        read_from(pool, o, e, d),
    ensures
        entries_sorted(normal_entries(e)),
        forall|q: int|
            0 <= q < normal_entries(e).len() ==> (#[trigger] normal_entries(e)[q]).0 is Text
                && normal_entries(e)[q].1 is Message && normal_entries(e)[q].1->Message_0.pool
                == pool && holds_value(normal_entries(e)[q].1->Message_0) && message_json(
                normal_entries(e)[q].1->Message_0,
                d,
            ) is Ok,
{
    let r = normal_entries(e);
    lemma_normal_entries_sorted(e);
    lemma_normal_among(e);
    assert forall|q: int| 0 <= q < r.len() implies (#[trigger] r[q]).0 is Text && r[q].1 is Message
        && r[q].1->Message_0.pool == pool && holds_value(r[q].1->Message_0) && message_json(
        r[q].1->Message_0,
        d,
    ) is Ok by {
        assert(entry_among(e, r[q]));
        let k = choose|k: int| 0 <= k < e.len() && #[trigger] e[k] == r[q];
        assert(written_as(e[k].1->Message_0, pool, d, o[k].1));
    }
}

/// What entries that were read are written as, one by one.
proof fn lemma_members_written(
    pool: DescriptorPool,
    o: Seq<(Seq<char>, InputModel)>,
    e: Seq<(KeyModel, ValueModel)>,
    d: nat,
)
    requires
        read_from(pool, o, e, d),
    ensures
        struct_json(normal_entries(e), 0, d + 1) matches Ok(s) && s.len() == normal_entries(e).len()
            && forall|q: int|
            0 <= q < s.len() ==> #[trigger] s[q] == (
                normal_entries(e)[q].0->Text_0,
                message_json(normal_entries(e)[q].1->Message_0, d)->Ok_0,
            ),
{
    let r = normal_entries(e);
    lemma_normal_held(pool, o, e, d);
    lemma_struct_written(r, 0, d);
    let s = struct_json(r, 0, d + 1)->Ok_0;
    assert forall|q: int| 0 <= q < s.len() implies #[trigger] s[q] == (
        r[q].0->Text_0,
        message_json(r[q].1->Message_0, d)->Ok_0,
    ) by {
        assert(s[q] == (r[q + 0].0->Text_0, message_json(r[q + 0].1->Message_0, d)->Ok_0));
    }
}

/// Entries that were read are written as the members that they were read from.
proof fn lemma_object_written(
    pool: DescriptorPool,
    o: Seq<(Seq<char>, InputModel)>,
    e: Seq<(KeyModel, ValueModel)>,
    d: nat,
)
    requires
        read_from(pool, o, e, d),
        forall|p: int, q: int| 0 <= p < q < o.len() ==> (#[trigger] o[p]).0 != (#[trigger] o[q]).0,
    ensures
        struct_json(normal_entries(e), 0, d + 1) matches Ok(s) && same_json(
            JsonModel::Object(s),
            InputModel::Object(o),
        ),
{
    let r = normal_entries(e);
    assert forall|p: int, q: int| 0 <= p < q < e.len() implies (#[trigger] e[p]).0 != (
    #[trigger] e[q]).0 by {
        assert(o[p].0 != o[q].0);
    }
    lemma_normal_distinct(e);
    lemma_members_written(pool, o, e, d);
    let s = struct_json(r, 0, d + 1)->Ok_0;
    assert forall|k: int| 0 <= k < o.len() implies exists|p: int|
        0 <= p < s.len() && (#[trigger] s[p]).0 == (#[trigger] o[k]).0 && same_json(
            s[p].1,
            o[k].1,
        ) by {
        assert(written_as(e[k].1->Message_0, pool, d, o[k].1));
        assert(entry_among(r, e[k]));
        let p = choose|p: int| 0 <= p < r.len() && #[trigger] r[p] == e[k];
        assert(s[p].0 == o[k].0 && same_json(s[p].1, o[k].1));
    }
}

/// Entries that were read in order are written in the order of the members.
proof fn lemma_ordered_written(
    pool: DescriptorPool,
    o: Seq<(Seq<char>, InputModel)>,
    e: Seq<(KeyModel, ValueModel)>,
    d: nat,
)
    requires
        read_from(pool, o, e, d),
        in_order(InputModel::Object(o)),
    ensures
        struct_json(normal_entries(e), 0, d + 1) matches Ok(s) && reads_as(
            JsonModel::Object(s),
            InputModel::Object(o),
        ),
{
    lemma_in_order(o);
    assert forall|p: int, q: int| 0 <= p < q < e.len() implies key_before(
        (#[trigger] e[p]).0,
        (#[trigger] e[q]).0,
    ) by {
        let (a, b) = (o[p], o[q]);
        assert(key_before(KeyModel::Text(a.0), KeyModel::Text(b.0)));
    }
    lemma_normal_entries_id(e);
    lemma_members_written(pool, o, e, d);
    let s = struct_json(e, 0, d + 1)->Ok_0;
    assert forall|q: int| 0 <= q < s.len() implies (#[trigger] s[q]).0 == o[q].0 && reads_as(
        s[q].1,
        o[q].1,
    ) by {
        assert(written_as(e[q].1->Message_0, pool, d, o[q].1));
    }
}

/// What order means for the members of an object.
proof fn lemma_in_order(o: Seq<(Seq<char>, InputModel)>)
    requires
        in_order(InputModel::Object(o)),
    ensures
        forall|p: int, q: int|
            0 <= p < q < o.len() ==> key_before(
                KeyModel::Text((#[trigger] o[p]).0),
                KeyModel::Text((#[trigger] o[q]).0),
            ),
        forall|k: int| 0 <= k < o.len() ==> in_order((#[trigger] o[k]).1),
{
    let i = InputModel::Object(o);
    assert(i->Object_0 == o);
    assert forall|p: int, q: int| 0 <= p < q < o.len() implies key_before(
        KeyModel::Text((#[trigger] o[p]).0),
        KeyModel::Text((#[trigger] o[q]).0),
    ) by {
        assert(in_order(i));
        assert(key_before(KeyModel::Text(i->Object_0[p].0), KeyModel::Text(i->Object_0[q].0)));
    }
    assert forall|k: int| 0 <= k < o.len() implies in_order((#[trigger] o[k]).1) by {
        assert(in_order(i->Object_0[k].1));
    }
}

/// A new key is added to the entries, and nothing is lost.
proof fn lemma_put_new(s: Seq<(KeyModel, ValueModel)>, k: KeyModel, v: ValueModel)
    requires
        forall|i: int| 0 <= i < s.len() ==> (#[trigger] s[i]).0 != k,
    ensures
        entry_put(s, k, v).len() == s.len() + 1,
        entry_among(entry_put(s, k, v), (k, v)),
        forall|i: int| 0 <= i < s.len() ==> entry_among(entry_put(s, k, v), #[trigger] s[i]),
    decreases s.len(),
{
    let r = entry_put(s, k, v);
    if s.len() == 0 || key_before(s.last().0, k) {
        assert(r[s.len() as int] == (k, v));
        assert forall|i: int| 0 <= i < s.len() implies entry_among(r, #[trigger] s[i]) by {
            assert(r[i] == s[i]);
        }
    } else {
        let t = s.drop_last();
        let u = entry_put(t, k, v);
        assert(s[s.len() - 1].0 != k);
        lemma_put_new(t, k, v);
        let p = choose|p: int| 0 <= p < u.len() && #[trigger] u[p] == (k, v);
        assert(r[p] == (k, v));
        assert forall|i: int| 0 <= i < s.len() implies entry_among(r, #[trigger] s[i]) by {
            if i < t.len() {
                assert(entry_among(u, t[i]));
                let q = choose|q: int| 0 <= q < u.len() && #[trigger] u[q] == t[i];
                assert(r[q] == s[i]);
            } else {
                assert(r[u.len() as int] == s[i]);
            }
        }
    }
}

/// Where no key occurs twice, putting entries in order loses none.
proof fn lemma_normal_distinct(e: Seq<(KeyModel, ValueModel)>)
    requires
        forall|p: int, q: int| 0 <= p < q < e.len() ==> (#[trigger] e[p]).0 != (#[trigger] e[q]).0,
    ensures
        normal_entries(e).len() == e.len(),
        forall|k: int| 0 <= k < e.len() ==> entry_among(normal_entries(e), #[trigger] e[k]),
    decreases e.len(),
{
    if e.len() > 0 {
        let t = e.drop_last();
        let u = normal_entries(t);
        let r = normal_entries(e);
        let last = e[e.len() - 1];
        lemma_normal_distinct(t);
        lemma_normal_among(t);
        assert forall|i: int| 0 <= i < u.len() implies (#[trigger] u[i]).0 != last.0 by {
            assert(entry_among(t, u[i]));
            let j = choose|j: int| 0 <= j < t.len() && #[trigger] t[j] == u[i];
            assert(e[j].0 != e[e.len() - 1].0);
        }
        lemma_put_new(u, last.0, last.1);
        assert forall|k: int| 0 <= k < e.len() implies entry_among(r, #[trigger] e[k]) by {
            if k < t.len() {
                assert(entry_among(u, t[k]));
                let q = choose|q: int| 0 <= q < u.len() && #[trigger] u[q] == t[k];
                assert(entry_among(r, u[q]));
            } else {
                assert(e[k] == (last.0, last.1));
            }
        }
    }
}

/// A message with one field that was just set.
proof fn lemma_held_in(pool: DescriptorPool, index: MessageIndex, n: u32, v: ValueModel)
    ensures
        with_field(empty_message(pool, index), n, v).fields == seq![(n, v)],
{
    assert(with_field(empty_message(pool, index), n, v).fields =~= seq![(n, v)]);
}

proof fn lemma_scalar_held(pool: DescriptorPool, i: InputModel, depth: nat)
    requires
        knows_json(pool),
        is_tidy(i),
        height(i) == 0,
    ensures
        dynamic_from(pool, index_of(pool, "google.protobuf.Value"@)->Some_0, i) matches Ok(m)
            && written_as(m, pool, depth, i),
{
    let v = index_of(pool, "google.protobuf.Value"@)->Some_0;
    let m = dynamic_from(pool, v, i)->Ok_0;
    lemma_names(pool);
    match i {
        InputModel::Null => {
            lemma_held_in(pool, v, 1, ValueModel::EnumNumber(0));
        },
        InputModel::Bool(b) => {
            lemma_held_in(pool, v, 4, ValueModel::Bool(b));
        },
        InputModel::Number(n) => {
            lemma_held_in(pool, v, 2, ValueModel::F64(n.double));
        },
        InputModel::Text(s) => {
            lemma_held_in(pool, v, 3, ValueModel::Text(s));
        },
        _ => {},
    }
    lemma_one_field(m, 1);
    lemma_one_field(m, 2);
    lemma_one_field(m, 3);
    lemma_one_field(m, 4);
}

proof fn lemma_object_held(
    pool: DescriptorPool,
    o: Seq<(Seq<char>, InputModel)>,
    k: nat,
    depth: nat,
)
    requires
        knows_json(pool),
        is_tidy(InputModel::Object(o)),
        k <= o.len(),
        2 * height(InputModel::Object(o)) <= depth + 2,
    ensures
        struct_entries(pool, index_of(pool, "google.protobuf.Value"@)->Some_0, o, k) matches Ok(e)
            && e.len() + k == o.len() && forall|q: int|
            0 <= q < e.len() ==> (#[trigger] e[q]).0 == KeyModel::Text(o[q + k].0)
                && e[q].1 is Message && written_as(e[q].1->Message_0, pool, depth, o[q + k].1),
    decreases height(InputModel::Object(o)), 0nat, o.len() - k,
{
    if k < o.len() {
        let v = index_of(pool, "google.protobuf.Value"@)->Some_0;
        lemma_member_height(o, k as int);
        law_json_held(pool, o[k as int].1, depth, false);
        lemma_object_held(pool, o, k + 1, depth);
        let x = message_from(pool, v, o[k as int].1, false)->Ok_0;
        let more = struct_entries(pool, v, o, k + 1)->Ok_0;
        let e = struct_entries(pool, v, o, k)->Ok_0;
        assert(e == seq![(KeyModel::Text(o[k as int].0), ValueModel::Message(x))] + more);
        assert forall|q: int| 0 <= q < e.len() implies (#[trigger] e[q]).0 == KeyModel::Text(
            o[q + k].0,
        ) && e[q].1 is Message && written_as(e[q].1->Message_0, pool, depth, o[q + k].1) by {
            if q > 0 {
                assert(e[q] == more[q - 1]);
            }
        }
    }
}

proof fn lemma_array_held(pool: DescriptorPool, a: Seq<InputModel>, k: nat, depth: nat)
    requires
        knows_json(pool),
        is_tidy(InputModel::Array(a)),
        k <= a.len(),
        2 * height(InputModel::Array(a)) <= depth + 2,
    ensures
        list_items(pool, index_of(pool, "google.protobuf.Value"@)->Some_0, a, k) matches Ok(l)
            && l.len() + k == a.len() && forall|q: int|
            0 <= q < l.len() ==> #[trigger] l[q] is Message && written_as(
                l[q]->Message_0,
                pool,
                depth,
                a[q + k],
            ),
    decreases height(InputModel::Array(a)), 0nat, a.len() - k,
{
    if k < a.len() {
        let v = index_of(pool, "google.protobuf.Value"@)->Some_0;
        lemma_element_height(a, k as int);
        law_json_held(pool, a[k as int], depth, false);
        lemma_array_held(pool, a, k + 1, depth);
        let x = message_from(pool, v, a[k as int], false)->Ok_0;
        let more = list_items(pool, v, a, k + 1)->Ok_0;
        let l = list_items(pool, v, a, k)->Ok_0;
        assert(l == seq![ValueModel::Message(x)] + more);
        assert forall|q: int| 0 <= q < l.len() implies #[trigger] l[q] is Message && written_as(
            l[q]->Message_0,
            pool,
            depth,
            a[q + k],
        ) by {
            if q > 0 {
                assert(l[q] == more[q - 1]);
            }
        }
    }
}

proof fn lemma_struct_written(e: Seq<(KeyModel, ValueModel)>, k: nat, depth: nat)
    requires
        k <= e.len(),
        forall|q: int|
            0 <= q < e.len() ==> (#[trigger] e[q]).0 is Text && e[q].1 is Message && message_json(
                e[q].1->Message_0,
                depth,
            ) is Ok,
    ensures
        struct_json(e, k, depth + 1) matches Ok(s) && s.len() + k == e.len() && forall|q: int|
            0 <= q < s.len() ==> #[trigger] s[q] == (
                e[q + k].0->Text_0,
                message_json(e[q + k].1->Message_0, depth)->Ok_0,
            ),
    decreases e.len() - k,
{
    if k < e.len() {
        lemma_struct_written(e, k + 1, depth);
        let more = struct_json(e, k + 1, depth + 1)->Ok_0;
        let s = struct_json(e, k, depth + 1)->Ok_0;
        assert(e[k as int].0 is Text);
        let x = e[k as int].1->Message_0;
        let j = message_json(x, depth)->Ok_0;
        assert(nested_json(x, depth + 1) == message_json(x, depth));
        assert(s == seq![(e[k as int].0->Text_0, j)] + more);
        assert forall|q: int| 0 <= q < s.len() implies #[trigger] s[q] == (
            e[q + k].0->Text_0,
            message_json(e[q + k].1->Message_0, depth)->Ok_0,
        ) by {
            if q > 0 {
                assert(s[q] == more[q - 1]);
            }
        }
    }
}

proof fn lemma_list_written(l: Seq<ValueModel>, k: nat, depth: nat)
    requires
        k <= l.len(),
        forall|q: int|
            0 <= q < l.len() ==> #[trigger] l[q] is Message && message_json(
                l[q]->Message_0,
                depth,
            ) is Ok,
    ensures
        list_json(l, k, depth + 1) matches Ok(s) && s.len() + k == l.len() && forall|q: int|
            0 <= q < s.len() ==> #[trigger] s[q] == message_json(
                l[q + k]->Message_0,
                depth,
            )->Ok_0,
    decreases l.len() - k,
{
    if k < l.len() {
        lemma_list_written(l, k + 1, depth);
        let more = list_json(l, k + 1, depth + 1)->Ok_0;
        let s = list_json(l, k, depth + 1)->Ok_0;
        assert(l[k as int] is Message);
        let x = l[k as int]->Message_0;
        assert(nested_json(x, depth + 1) == message_json(x, depth));
        assert(s == seq![message_json(x, depth)->Ok_0] + more);
        assert forall|q: int| 0 <= q < s.len() implies #[trigger] s[q] == message_json(
            l[q + k]->Message_0,
            depth,
        )->Ok_0 by {
            if q > 0 {
                assert(s[q] == more[q - 1]);
            }
        }
    }
}

} // verus!
