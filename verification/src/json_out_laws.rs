//! What the JSON of values and messages is.
use vstd::prelude::*;
use crate::access_laws::{no_number, no_small_number};
use crate::any::{any_type, bytes_at, text_at};
use crate::decode::{decoded, depth_options};
use crate::descriptor::{
    DescriptorPool, EnumIndex, EnumValueDescriptor, FieldDescriptor, FieldKind, ScalarType,
    SingularKind,
};
use crate::json::{
    double_json, float_json, key_text, reads_as, scalar_json, writes, InputModel, Json, JsonError,
    JsonModel,
};
use crate::message::has_field;
use crate::scalar::{is_default, scalar_default};
use crate::shape::{full_name, scalar_fits, value_fits};
use crate::text::{decimal_text, signed_text};
use crate::to_json::{
    element_json, entries_json, enum_json, items_json, list_json, members_json, message_json,
    nested_json, number_at, payload_json, struct_json, texts_of, too_deep, value_json,
};
use crate::value::{field_get, KeyModel, MessageModel, ValueModel};
use crate::wkt::{duration_text, mask_json, timestamp_text, wkt_of, WktKind};

verus! {

// ── Scalars ─────────────────────────────────────────────────────────────────

/// A double is a number in JSON, but for what is no number and the two
/// infinities, which are texts.
pub proof fn law_double_json(bits: u64)
    ensures
        no_number(bits) ==> double_json(bits) == JsonModel::Text("NaN"@),
        bits == 0x7ff0_0000_0000_0000 ==> double_json(bits) == JsonModel::Text("Infinity"@),
        bits == 0xfff0_0000_0000_0000 ==> double_json(bits) == JsonModel::Text("-Infinity"@),
        !no_number(bits) && bits % 0x8000_0000_0000_0000 != 0x7ff0_0000_0000_0000 ==> double_json(
            bits,
        ) == JsonModel::Double(bits),
{
}

/// A float is a number in JSON, but for what is no number and the two
/// infinities, which are texts.
pub proof fn law_float_json(bits: u32)
    ensures
        no_small_number(bits) ==> float_json(bits) == JsonModel::Text("NaN"@),
        bits == 0x7f80_0000 ==> float_json(bits) == JsonModel::Text("Infinity"@),
        bits == 0xff80_0000 ==> float_json(bits) == JsonModel::Text("-Infinity"@),
        !no_small_number(bits) && bits % 0x8000_0000 != 0x7f80_0000 ==> float_json(bits)
            == JsonModel::Float(bits),
{
}

/// Whole numbers of 32 bits are numbers in JSON; those of 64 bits are texts. A
/// value that is not of the scalar type is null.
pub proof fn law_scalar_json(s: ScalarType, v: ValueModel)
    ensures
        scalar_fits(s, v) ==> match v {
            ValueModel::Bool(b) => scalar_json(s, v) == JsonModel::Bool(b),
            ValueModel::I32(n) => scalar_json(s, v) matches JsonModel::Int(x) && x == n,
            ValueModel::U32(n) => scalar_json(s, v) matches JsonModel::Int(x) && x == n,
            ValueModel::I64(n) => scalar_json(s, v) == JsonModel::Text(signed_text(n as int)),
            ValueModel::U64(n) => scalar_json(s, v) == JsonModel::Text(decimal_text(n as nat)),
            ValueModel::F32(n) => scalar_json(s, v) == float_json(n),
            ValueModel::F64(n) => scalar_json(s, v) == double_json(n),
            ValueModel::Text(t) => scalar_json(s, v) == JsonModel::Text(t),
            ValueModel::Bytes(b) => scalar_json(s, v) == JsonModel::Text(
                crate::json::base64_text(b),
            ),
            _ => false,
        },
        !scalar_fits(s, v) ==> scalar_json(s, v) is Null,
{
}

/// A map key is a text in JSON: the word for a truth value, the digits of a
/// number, and a text itself.
pub proof fn law_key_text(k: KeyModel)
    ensures
        match k {
            KeyModel::Bool(b) => key_text(k) == if b {
                "true"@
            } else {
                "false"@
            },
            KeyModel::I32(n) => key_text(k) == signed_text(n as int),
            KeyModel::I64(n) => key_text(k) == signed_text(n as int),
            KeyModel::U32(n) => key_text(k) == decimal_text(n as nat),
            KeyModel::U64(n) => key_text(k) == decimal_text(n as nat),
            KeyModel::Text(t) => key_text(k) == t,
        },
{
}

proof fn lemma_number_at(values: Seq<EnumValueDescriptor>, n: i32, i: nat)
    ensures
        match number_at(values, n, i) {
            Some(k) => i <= k < values.len() && values[k as int].number == n && forall|j: int|
                i <= j < k ==> (#[trigger] values[j]).number != n,
            None => forall|j: int| i <= j < values.len() ==> (#[trigger] values[j]).number != n,
        },
    decreases values.len() - i,
{
    if i < values.len() && values[i as int].number != n {
        lemma_number_at(values, n, i + 1);
    }
}

/// An enum number is, in JSON, the name of the first value that the enum declares
/// with that number: a text is the name of a value with the number, and there is
/// one wherever the enum declares the number. A number that it does not declare
/// is itself, and the one of `NullValue` is null.
pub proof fn law_enum_json(pool: DescriptorPool, e: EnumIndex, n: i32)
    ensures
        ({
            let ed = pool.enum_seq()[e.0 as int];
            let j = enum_json(pool, e, n);
            if ed.full_name@ == "google.protobuf.NullValue"@ {
                j is Null
            } else {
                &&& j matches JsonModel::Text(t) ==> exists|i: int|
                    0 <= i < ed.values@.len() && (#[trigger] ed.values@[i]).name@ == t
                        && ed.values@[i].number == n && forall|k: int|
                        0 <= k < i ==> (#[trigger] ed.values@[k]).number != n
                &&& (exists|i: int|
                    0 <= i < ed.values@.len() && (#[trigger] ed.values@[i]).number == n)
                    ==> j is Text
                &&& (forall|i: int|
                    0 <= i < ed.values@.len() ==> (#[trigger] ed.values@[i]).number != n) ==> (
                j matches JsonModel::Int(x) && x == n)
            }
        }),
{
    let ed = pool.enum_seq()[e.0 as int];
    lemma_number_at(ed.values@, n, 0);
    if let Some(k) = number_at(ed.values@, n, 0) {
        assert(ed.values@[k as int].number == n);
    }
}

/// What the JSON of an enum number is read back as is that number, where the
/// names of the enum are different.
pub proof fn law_enum_reread(pool: DescriptorPool, e: EnumIndex, n: i32, j: InputModel)
    requires
        pool.enum_seq()[e.0 as int].full_name@ != "google.protobuf.NullValue"@,
        forall|a: int, b: int|
            0 <= a < b < pool.enum_seq()[e.0 as int].values@.len() ==> (
            #[trigger] pool.enum_seq()[e.0 as int].values@[a]).name@ != (
            #[trigger] pool.enum_seq()[e.0 as int].values@[b]).name@,
        reads_as(enum_json(pool, e, n), j),
    ensures
        crate::from_json::enum_from(pool, e, j) == Ok::<ValueModel, Seq<char>>(
            ValueModel::EnumNumber(n),
        ),
{
    let values = pool.enum_seq()[e.0 as int].values@;
    lemma_number_at(values, n, 0);
    if let Some(k) = number_at(values, n, 0) {
        let name = values[k as int].name@;
        crate::json_in_laws::lemma_name_at(values, name, 0);
        if let Some(i) = crate::from_json::name_at(values, name, 0) {
            if i < k {
                assert(values[i as int].name@ != values[k as int].name@);
            }
        }
    }
}

// ── Messages ────────────────────────────────────────────────────────────────

/// How many of the fields that the type declares before the `j`-th are set.
pub open spec fn set_before(m: MessageModel, j: nat) -> nat
    decreases j,
{
    if j == 0 {
        0
    } else if has_field(m, m.pool.message_seq()[m.index.0 as int].fields@[j - 1]) {
        set_before(m, (j - 1) as nat) + 1
    } else {
        set_before(m, (j - 1) as nat)
    }
}

proof fn lemma_set_before(m: MessageModel, i: nat, j: nat)
    requires
        i <= j,
    ensures
        set_before(m, i) <= set_before(m, j),
        i < j && has_field(m, m.pool.message_seq()[m.index.0 as int].fields@[i as int])
            ==> set_before(m, i) < set_before(m, j),
    decreases j,
{
    if i < j {
        lemma_set_before(m, i, (j - 1) as nat);
    }
}

/// The value of field `fd` in `m`, as JSON.
pub open spec fn field_json(m: MessageModel, fd: FieldDescriptor, depth: nat) -> Result<
    JsonModel,
    Seq<char>,
> {
    match field_get(m.fields, fd.number) {
        Some(v) => value_json(m.pool, fd, v, depth),
        None => Err(Seq::empty()),
    }
}

proof fn lemma_members(m: MessageModel, i: nat, depth: nat)
    requires
        i <= m.pool.message_seq()[m.index.0 as int].fields@.len(),
    ensures
        ({
            let fields = m.pool.message_seq()[m.index.0 as int].fields@;
            match members_json(m, i, depth) {
                Ok(o) => {
                    &&& o.len() == set_before(m, fields.len()) - set_before(m, i)
                    &&& forall|j: int|
                        i <= j < fields.len() && has_field(m, #[trigger] fields[j]) ==> {
                            let e = o[set_before(m, j as nat) - set_before(m, i)];
                            e.0 == fields[j].json_name@ && field_json(m, fields[j], depth) == Ok::<
                                JsonModel,
                                Seq<char>,
                            >(e.1)
                        }
                },
                Err(e) => exists|j: int|
                    i <= j < fields.len() && has_field(m, #[trigger] fields[j]) && field_json(
                        m,
                        fields[j],
                        depth,
                    ) == Err::<JsonModel, Seq<char>>(e),
            }
        }),
    decreases m.pool.message_seq()[m.index.0 as int].fields@.len() - i,
{
    let fields = m.pool.message_seq()[m.index.0 as int].fields@;
    if i < fields.len() {
        lemma_members(m, i + 1, depth);
        let fd = fields[i as int];
        lemma_set_before(m, i, fields.len());
        lemma_set_before(m, i + 1, fields.len());
        assert(set_before(m, i + 1) == set_before(m, i) + if has_field(m, fd) {
            1nat
        } else {
            0
        });
        match members_json(m, i, depth) {
            Ok(o) => {
                let rest = members_json(m, i + 1, depth)->Ok_0;
                assert forall|j: int|
                    i <= j < fields.len() && has_field(m, #[trigger] fields[j]) implies {
                    let e = o[set_before(m, j as nat) - set_before(m, i)];
                    e.0 == fields[j].json_name@ && field_json(m, fields[j], depth) == Ok::<
                        JsonModel,
                        Seq<char>,
                    >(e.1)
                } by {
                    if j > i {
                        lemma_set_before(m, i + 1, j as nat);
                        lemma_set_before(m, j as nat, fields.len());
                        let p = set_before(m, j as nat) - set_before(m, i + 1);
                        if has_field(m, fd) {
                            assert(o[p + 1] == rest[p]);
                        } else {
                            assert(o == rest);
                        }
                    }
                }
            },
            Err(e) => {
                if has_field(m, fd) && field_json(m, fd, depth) is Err {
                    assert(fields[i as int] == fd);
                }
            },
        }
    }
}

/// The JSON of a plain message is an object with a member for each field that is
/// set, under its name in JSON, with its value, in the order in which the type
/// declares the fields. It fails only where the value of such a field does.
pub proof fn law_members_json(m: MessageModel, depth: nat)
    requires
        wkt_of(full_name(m)) is None,
    ensures
        ({
            let fields = m.pool.message_seq()[m.index.0 as int].fields@;
            match message_json(m, depth) {
                Ok(j) => {
                    &&& j is Object
                    &&& j->Object_0.len() == set_before(m, fields.len())
                    &&& forall|i: int|
                        0 <= i < fields.len() && has_field(m, #[trigger] fields[i]) ==> {
                            let e = j->Object_0[set_before(m, i as nat) as int];
                            e.0 == fields[i].json_name@ && field_json(m, fields[i], depth) == Ok::<
                                JsonModel,
                                Seq<char>,
                            >(e.1)
                        }
                },
                Err(e) => exists|i: int|
                    0 <= i < fields.len() && has_field(m, #[trigger] fields[i]) && field_json(
                        m,
                        fields[i],
                        depth,
                    ) == Err::<JsonModel, Seq<char>>(e),
            }
        }),
{
    lemma_members(m, 0, depth);
    if let Ok(o) = members_json(m, 0, depth) {
        let fields = m.pool.message_seq()[m.index.0 as int].fields@;
        assert forall|i: int|
            0 <= i < fields.len() && has_field(m, #[trigger] fields[i]) implies {
            let e = o[set_before(m, i as nat) as int];
            e.0 == fields[i].json_name@ && field_json(m, fields[i], depth) == Ok::<
                JsonModel,
                Seq<char>,
            >(e.1)
        } by {
            assert(set_before(m, i as nat) - set_before(m, 0) == set_before(m, i as nat));
        }
    }
}

/// The JSON of one element is that of its scalar, of its enum number, or of its
/// message, which takes one of the levels that are left.
pub proof fn law_element_json(pool: DescriptorPool, kind: SingularKind, v: ValueModel, depth: nat)
    ensures
        match (kind, v) {
            (SingularKind::Scalar(s), _) => element_json(pool, kind, v, depth) == Ok::<
                JsonModel,
                Seq<char>,
            >(scalar_json(s, v)),
            (SingularKind::Enum(e), ValueModel::EnumNumber(n)) => element_json(
                pool,
                kind,
                v,
                depth,
            ) == Ok::<JsonModel, Seq<char>>(enum_json(pool, e, n)),
            (SingularKind::Message(_), ValueModel::Message(x)) => if depth > 0 {
                element_json(pool, kind, v, depth) == message_json(x, (depth - 1) as nat)
            } else {
                element_json(pool, kind, v, depth) is Err
            },
            _ => element_json(pool, kind, v, depth) == Ok::<JsonModel, Seq<char>>(JsonModel::Null),
        },
{
}

proof fn lemma_items_out(
    pool: DescriptorPool,
    kind: SingularKind,
    l: Seq<ValueModel>,
    i: nat,
    depth: nat,
)
    requires
        i <= l.len(),
    ensures
        match items_json(pool, kind, l, i, depth) {
            Ok(a) => a.len() == l.len() - i && forall|j: int|
                0 <= j < a.len() ==> element_json(pool, kind, l[i + j], depth) == Ok::<
                    JsonModel,
                    Seq<char>,
                >(#[trigger] a[j]),
            Err(_) => exists|j: int|
                i <= j < l.len() && element_json(pool, kind, #[trigger] l[j], depth) is Err,
        },
    decreases l.len() - i,
{
    if i < l.len() {
        lemma_items_out(pool, kind, l, i + 1, depth);
        if let Ok(a) = items_json(pool, kind, l, i, depth) {
            let t = items_json(pool, kind, l, i + 1, depth)->Ok_0;
            assert forall|j: int| 0 <= j < a.len() implies element_json(
                pool,
                kind,
                l[i + j],
                depth,
            ) == Ok::<JsonModel, Seq<char>>(#[trigger] a[j]) by {
                if j > 0 {
                    assert(a[j] == t[j - 1]);
                    assert(l[i + 1 + (j - 1)] == l[i + j]);
                }
            }
        }
    }
}

proof fn lemma_entries_out(
    pool: DescriptorPool,
    kind: SingularKind,
    e: Seq<(KeyModel, ValueModel)>,
    i: nat,
    depth: nat,
)
    requires
        i <= e.len(),
    ensures
        match entries_json(pool, kind, e, i, depth) {
            Ok(o) => o.len() == e.len() - i && forall|j: int|
                0 <= j < o.len() ==> (#[trigger] o[j]).0 == key_text(e[i + j].0) && element_json(
                    pool,
                    kind,
                    e[i + j].1,
                    depth,
                ) == Ok::<JsonModel, Seq<char>>(o[j].1),
            Err(_) => exists|j: int|
                i <= j < e.len() && element_json(pool, kind, (#[trigger] e[j]).1, depth) is Err,
        },
    decreases e.len() - i,
{
    if i < e.len() {
        lemma_entries_out(pool, kind, e, i + 1, depth);
        if let Ok(o) = entries_json(pool, kind, e, i, depth) {
            let t = entries_json(pool, kind, e, i + 1, depth)->Ok_0;
            assert forall|j: int| 0 <= j < o.len() implies (#[trigger] o[j]).0 == key_text(
                e[i + j].0,
            ) && element_json(pool, kind, e[i + j].1, depth) == Ok::<JsonModel, Seq<char>>(
                o[j].1,
            ) by {
                if j > 0 {
                    assert(o[j] == t[j - 1]);
                    assert(e[i + 1 + (j - 1)] == e[i + j]);
                }
            }
        }
    }
}

/// The JSON of a list is an array of its elements in their order, and that of a
/// map an object with a member for each entry under the text of its key; they
/// fail only where an element does. A value that does not fit its field is null.
pub proof fn law_value_json(pool: DescriptorPool, fd: FieldDescriptor, v: ValueModel, depth: nat)
    ensures
        !value_fits(fd.kind, v, pool) ==> value_json(pool, fd, v, depth) == Ok::<
            JsonModel,
            Seq<char>,
        >(JsonModel::Null),
        value_fits(fd.kind, v, pool) ==> match (fd.kind, v) {
            (FieldKind::Singular(k), _) => value_json(pool, fd, v, depth) == element_json(
                pool,
                k,
                v,
                depth,
            ),
            (FieldKind::List(k), ValueModel::List(l)) => match value_json(pool, fd, v, depth) {
                Ok(j) => j is Array && j->Array_0.len() == l.len() && forall|i: int|
                    0 <= i < l.len() ==> element_json(pool, k, #[trigger] l[i], depth) == Ok::<
                        JsonModel,
                        Seq<char>,
                    >(j->Array_0[i]),
                Err(_) => exists|i: int|
                    0 <= i < l.len() && element_json(pool, k, #[trigger] l[i], depth) is Err,
            },
            (FieldKind::Mapping { key, value }, ValueModel::Mapping(e)) => match value_json(
                pool,
                fd,
                v,
                depth,
            ) {
                Ok(j) => j is Object && j->Object_0.len() == e.len() && forall|i: int|
                    0 <= i < e.len() ==> j->Object_0[i].0 == key_text((#[trigger] e[i]).0)
                        && element_json(pool, value, e[i].1, depth) == Ok::<JsonModel, Seq<char>>(
                        j->Object_0[i].1,
                    ),
                Err(_) => exists|i: int|
                    0 <= i < e.len() && element_json(pool, value, (#[trigger] e[i]).1, depth) is Err,
            },
            _ => true,
        },
{
    match (fd.kind, v) {
        (FieldKind::List(k), ValueModel::List(l)) => {
            lemma_items_out(pool, k, l, 0, depth);
            if let Ok(a) = items_json(pool, k, l, 0, depth) {
                assert forall|i: int| 0 <= i < l.len() implies element_json(
                    pool,
                    k,
                    #[trigger] l[i],
                    depth,
                ) == Ok::<JsonModel, Seq<char>>(a[i]) by {
                    assert(l[0 + i] == l[i]);
                }
            }
        },
        (FieldKind::Mapping { key, value }, ValueModel::Mapping(e)) => {
            lemma_entries_out(pool, value, e, 0, depth);
            if let Ok(o) = entries_json(pool, value, e, 0, depth) {
                assert forall|i: int| 0 <= i < e.len() implies o[i].0 == key_text(
                    (#[trigger] e[i]).0,
                ) && element_json(pool, value, e[i].1, depth) == Ok::<JsonModel, Seq<char>>(
                    o[i].1,
                ) by {
                    assert(o[i].0 == key_text(e[0 + i].0));
                }
            }
        },
        _ => {},
    }
}

// ── Well-known types ────────────────────────────────────────────────────────

/// A whole number under `n`: what is set, or zero.
pub open spec fn held_i64(m: MessageModel, n: u32, x: i64) -> bool {
    field_get(m.fields, n) == Some(ValueModel::I64(x)) || field_get(m.fields, n) is None && x == 0
}

/// A whole number of 32 bits under `n`: what is set, or zero.
pub open spec fn held_i32(m: MessageModel, n: u32, x: i32) -> bool {
    field_get(m.fields, n) == Some(ValueModel::I32(x)) || field_get(m.fields, n) is None && x == 0
}

/// The JSON is the text that was written, or the failure to write it.
pub open spec fn is_text(j: Result<JsonModel, Seq<char>>, t: Result<Seq<char>, Seq<char>>) -> bool {
    match t {
        Ok(x) => j == Ok::<JsonModel, Seq<char>>(JsonModel::Text(x)),
        Err(e) => j == Err::<JsonModel, Seq<char>>(e),
    }
}

/// A timestamp and a duration are texts made of the seconds under 1 and the
/// nanoseconds under 2.
pub proof fn law_time_json(m: MessageModel, depth: nat, secs: i64, nanos: i32)
    requires
        held_i64(m, 1, secs),
        held_i32(m, 2, nanos),
    ensures
        wkt_of(full_name(m)) == Some(WktKind::Timestamp) ==> is_text(
            message_json(m, depth),
            timestamp_text(secs, nanos),
        ),
        wkt_of(full_name(m)) == Some(WktKind::Duration) ==> is_text(
            message_json(m, depth),
            duration_text(secs, nanos),
        ),
{
}

proof fn lemma_texts_of(l: Seq<ValueModel>, paths: Seq<Seq<char>>)
    requires
        l.len() == paths.len(),
        forall|i: int| 0 <= i < l.len() ==> #[trigger] l[i] == ValueModel::Text(paths[i]),
    ensures
        texts_of(l) == paths,
    decreases l.len(),
{
    if l.len() > 0 {
        assert(l[l.len() - 1] == ValueModel::Text(paths[l.len() - 1]));
        assert forall|i: int| 0 <= i < l.drop_last().len() implies #[trigger] l.drop_last()[i]
            == ValueModel::Text(paths.drop_last()[i]) by {
            assert(l[i] == ValueModel::Text(paths[i]));
        }
        lemma_texts_of(l.drop_last(), paths.drop_last());
        assert(paths.drop_last().push(paths[l.len() - 1]) =~= paths);
    } else {
        assert(paths =~= Seq::<Seq<char>>::empty());
    }
}

/// A field mask is the text of the paths in the list under 1.
pub proof fn law_mask_json(m: MessageModel, depth: nat, paths: Seq<Seq<char>>)
    requires
        wkt_of(full_name(m)) == Some(WktKind::FieldMask),
        match field_get(m.fields, 1) {
            Some(ValueModel::List(l)) => l.len() == paths.len() && forall|i: int|
                0 <= i < l.len() ==> #[trigger] l[i] == ValueModel::Text(paths[i]),
            None => paths.len() == 0,
            _ => false,
        },
    ensures
        is_text(message_json(m, depth), mask_json(paths)),
{
    if let Some(ValueModel::List(l)) = field_get(m.fields, 1) {
        lemma_texts_of(l, paths);
    } else {
        assert(paths =~= Seq::<Seq<char>>::empty());
    }
}

/// An `Empty` is an object without members. A wrapper is what it wraps, and the
/// default of its type where it wraps nothing.
pub proof fn law_wrapper_json(m: MessageModel, depth: nat)
    ensures
        wkt_of(full_name(m)) == Some(WktKind::Empty) ==> (message_json(m, depth) matches Ok(j)
            && j is Object && j->Object_0.len() == 0),
        wkt_of(full_name(m)) matches Some(WktKind::Wrapper(s)) ==> match field_get(m.fields, 1) {
            Some(v) => message_json(m, depth) == Ok::<JsonModel, Seq<char>>(scalar_json(s, v)),
            None => exists|v: ValueModel|
                scalar_fits(s, v) && is_default(v) && message_json(m, depth) == Ok::<
                    JsonModel,
                    Seq<char>,
                >(#[trigger] scalar_json(s, v)),
        },
{
    if let Some(WktKind::Wrapper(s)) = wkt_of(full_name(m)) {
        if field_get(m.fields, 1) is None {
            let v = scalar_default(s);
            assert(scalar_fits(s, v) && is_default(v));
            assert(message_json(m, depth) == Ok::<JsonModel, Seq<char>>(scalar_json(s, v)));
        }
    }
}

/// The JSON of a message in another, which takes one of the levels that are left.
pub open spec fn inner_json(x: MessageModel, depth: nat) -> Result<JsonModel, Seq<char>> {
    if depth > 0 {
        message_json(x, (depth - 1) as nat)
    } else {
        Err(too_deep())
    }
}

proof fn lemma_inner(x: MessageModel, depth: nat)
    ensures
        nested_json(x, depth) == inner_json(x, depth),
{
}

proof fn lemma_struct_out(e: Seq<(KeyModel, ValueModel)>, i: nat, depth: nat)
    requires
        i <= e.len(),
        forall|j: int|
            0 <= j < e.len() ==> (#[trigger] e[j]).0 is Text && e[j].1 is Message,
    ensures
        match struct_json(e, i, depth) {
            Ok(o) => o.len() == e.len() - i && forall|j: int|
                0 <= j < o.len() ==> (#[trigger] o[j]).0 == e[i + j].0->Text_0 && inner_json(
                    e[i + j].1->Message_0,
                    depth,
                ) == Ok::<JsonModel, Seq<char>>(o[j].1),
            Err(_) => exists|j: int|
                i <= j < e.len() && inner_json((#[trigger] e[j]).1->Message_0, depth) is Err,
        },
    decreases e.len() - i,
{
    if i < e.len() {
        lemma_struct_out(e, i + 1, depth);
        assert(e[i as int].0 is Text && e[i as int].1 is Message);
        lemma_inner(e[i as int].1->Message_0, depth);
        if let Ok(o) = struct_json(e, i, depth) {
            let t = struct_json(e, i + 1, depth)->Ok_0;
            assert forall|j: int| 0 <= j < o.len() implies (#[trigger] o[j]).0 == e[i
                + j].0->Text_0 && inner_json(e[i + j].1->Message_0, depth) == Ok::<
                JsonModel,
                Seq<char>,
            >(o[j].1) by {
                if j > 0 {
                    assert(o[j] == t[j - 1]);
                    assert(e[i + 1 + (j - 1)] == e[i + j]);
                }
            }
        }
    }
}

proof fn lemma_list_out(l: Seq<ValueModel>, i: nat, depth: nat)
    requires
        i <= l.len(),
        forall|j: int| 0 <= j < l.len() ==> (#[trigger] l[j]) is Message,
    ensures
        match list_json(l, i, depth) {
            Ok(a) => a.len() == l.len() - i && forall|j: int|
                0 <= j < a.len() ==> inner_json(l[i + j]->Message_0, depth) == Ok::<
                    JsonModel,
                    Seq<char>,
                >(#[trigger] a[j]),
            Err(_) => exists|j: int|
                i <= j < l.len() && inner_json((#[trigger] l[j])->Message_0, depth) is Err,
        },
    decreases l.len() - i,
{
    if i < l.len() {
        lemma_list_out(l, i + 1, depth);
        assert(l[i as int] is Message);
        lemma_inner(l[i as int]->Message_0, depth);
        if let Ok(a) = list_json(l, i, depth) {
            let t = list_json(l, i + 1, depth)->Ok_0;
            assert forall|j: int| 0 <= j < a.len() implies inner_json(
                l[i + j]->Message_0,
                depth,
            ) == Ok::<JsonModel, Seq<char>>(#[trigger] a[j]) by {
                if j > 0 {
                    assert(a[j] == t[j - 1]);
                    assert(l[i + 1 + (j - 1)] == l[i + j]);
                }
            }
        }
    }
}

/// A `Struct` is an object with a member for each entry of the map under 1, under
/// its key; it fails only where the value of an entry does.
pub proof fn law_struct_json(m: MessageModel, depth: nat, e: Seq<(KeyModel, ValueModel)>)
    requires
        wkt_of(full_name(m)) == Some(WktKind::Struct),
        field_get(m.fields, 1) == Some(ValueModel::Mapping(e)) || field_get(m.fields, 1) is None
            && e.len() == 0,
        forall|j: int| 0 <= j < e.len() ==> (#[trigger] e[j]).0 is Text && e[j].1 is Message,
    ensures
        match message_json(m, depth) {
            Ok(j) => j is Object && j->Object_0.len() == e.len() && forall|i: int|
                0 <= i < e.len() ==> j->Object_0[i].0 == (#[trigger] e[i]).0->Text_0
                    && inner_json(e[i].1->Message_0, depth) == Ok::<JsonModel, Seq<char>>(
                    j->Object_0[i].1,
                ),
            Err(_) => exists|i: int|
                0 <= i < e.len() && inner_json((#[trigger] e[i]).1->Message_0, depth) is Err,
        },
{
    lemma_struct_out(e, 0, depth);
    if let Ok(o) = struct_json(e, 0, depth) {
        assert forall|i: int| 0 <= i < e.len() implies o[i].0 == (#[trigger] e[i]).0->Text_0
            && inner_json(e[i].1->Message_0, depth) == Ok::<JsonModel, Seq<char>>(o[i].1) by {
            assert(o[i].0 == e[0 + i].0->Text_0);
        }
    }
}

/// A `ListValue` is an array of the values in the list under 1, in their order;
/// it fails only where one of them does.
pub proof fn law_list_json(m: MessageModel, depth: nat, l: Seq<ValueModel>)
    requires
        wkt_of(full_name(m)) == Some(WktKind::ListValue),
        field_get(m.fields, 1) == Some(ValueModel::List(l)) || field_get(m.fields, 1) is None
            && l.len() == 0,
        forall|j: int| 0 <= j < l.len() ==> (#[trigger] l[j]) is Message,
    ensures
        match message_json(m, depth) {
            Ok(j) => j is Array && j->Array_0.len() == l.len() && forall|i: int|
                0 <= i < l.len() ==> inner_json((#[trigger] l[i])->Message_0, depth) == Ok::<
                    JsonModel,
                    Seq<char>,
                >(j->Array_0[i]),
            Err(_) => exists|i: int|
                0 <= i < l.len() && inner_json((#[trigger] l[i])->Message_0, depth) is Err,
        },
{
    lemma_list_out(l, 0, depth);
    if let Ok(a) = list_json(l, 0, depth) {
        assert forall|i: int| 0 <= i < l.len() implies inner_json(
            (#[trigger] l[i])->Message_0,
            depth,
        ) == Ok::<JsonModel, Seq<char>>(a[i]) by {
            assert(l[0 + i] == l[i]);
        }
    }
}

/// Of the members of a `Value`, none but the `k`-th is set.
pub open spec fn only_member(m: MessageModel, k: u32) -> bool {
    forall|n: u32| 1 <= n <= 6 && n != k ==> #[trigger] field_get(m.fields, n) is None
}

/// A `Value` is what its one member holds: null, a finite number, a text, a truth
/// value, an object or an array. With no member it is null, and a number that is
/// not finite is refused.
pub proof fn law_dynamic_json(m: MessageModel, depth: nat, k: u32)
    requires
        wkt_of(full_name(m)) == Some(WktKind::JsonValue),
        only_member(m, k),
    ensures
        match (k, field_get(m.fields, k)) {
            (1, _) => message_json(m, depth) == Ok::<JsonModel, Seq<char>>(JsonModel::Null),
            (2, Some(ValueModel::F64(x))) => if no_number(x) || x % 0x8000_0000_0000_0000
                == 0x7ff0_0000_0000_0000 {
                message_json(m, depth) is Err
            } else {
                message_json(m, depth) == Ok::<JsonModel, Seq<char>>(JsonModel::Double(x))
            },
            (3, Some(ValueModel::Text(x))) => message_json(m, depth) == Ok::<
                JsonModel,
                Seq<char>,
            >(JsonModel::Text(x)),
            (4, Some(ValueModel::Bool(x))) => message_json(m, depth) == Ok::<
                JsonModel,
                Seq<char>,
            >(JsonModel::Bool(x)),
            (5, Some(ValueModel::Message(x))) => message_json(m, depth) == inner_json(x, depth),
            (6, Some(ValueModel::Message(x))) => message_json(m, depth) == inner_json(x, depth),
            _ => message_json(m, depth) == Ok::<JsonModel, Seq<char>>(JsonModel::Null),
        },
{
    assert(1 != k ==> field_get(m.fields, 1) is None);
    assert(2 != k ==> field_get(m.fields, 2) is None);
    assert(3 != k ==> field_get(m.fields, 3) is None);
    assert(4 != k ==> field_get(m.fields, 4) is None);
    assert(5 != k ==> field_get(m.fields, 5) is None);
    assert(6 != k ==> field_get(m.fields, 6) is None);
}

/// An `Any` without a type and bytes is an object without members. Otherwise its
/// JSON is that of the message that its bytes are in the type that is named, with
/// one level less left for it; a type that is not in the pool, or bytes that are
/// no message, fail.
pub proof fn law_any_json(m: MessageModel, depth: nat)
    requires
        wkt_of(full_name(m)) == Some(WktKind::Any),
    ensures
        text_at(m, 1).len() == 0 && bytes_at(m, 2).len() == 0 ==> (message_json(
            m,
            depth,
        ) matches Ok(j) && j is Object && j->Object_0.len() == 0),
        text_at(m, 1).len() > 0 || bytes_at(m, 2).len() > 0 ==> match any_type(
            m.pool,
            text_at(m, 1),
        ) {
            None => message_json(m, depth) is Err,
            Some(i) => if depth == 0 {
                message_json(m, depth) is Err
            } else {
                match decoded(m.pool, i, bytes_at(m, 2), depth_options((depth - 1) as u32)) {
                    Ok(x) => message_json(m, depth) == payload_json(
                        text_at(m, 1),
                        x,
                        (depth - 1) as nat,
                    ),
                    Err(_) => message_json(m, depth) is Err,
                }
            },
        },
{
}

/// What an `Any` wraps is spread out behind the `type_url`, which comes first
/// under "@type". The JSON of a well-known type stands under "value" instead, but
/// for an `Empty`, which has no members.
pub proof fn law_payload_json(url: Seq<char>, x: MessageModel, depth: nat)
    ensures
        payload_json(url, x, depth) matches Ok(j) ==> {
            &&& j is Object
            &&& j->Object_0.len() > 0
            &&& j->Object_0[0] == ("@type"@, JsonModel::Text(url))
            &&& wkt_of(full_name(x)) is None ==> message_json(x, depth) == Ok::<
                JsonModel,
                Seq<char>,
            >(JsonModel::Object(j->Object_0.skip(1)))
            &&& (wkt_of(full_name(x)) matches Some(w) && !(w is Empty)) ==> j->Object_0.len() == 2
                && j->Object_0[1].0 == "value"@ && message_json(x, depth) == Ok::<
                JsonModel,
                Seq<char>,
            >(j->Object_0[1].1)
            &&& (wkt_of(full_name(x)) matches Some(w) && w is Empty) ==> j->Object_0.len() == 1
                + set_before(x, x.pool.message_seq()[x.index.0 as int].fields@.len())
        },
        payload_json(url, x, depth) is Err && !(wkt_of(full_name(x)) matches Some(w) && w is Empty)
            ==> message_json(x, depth) is Err,
{
    if let Ok(o) = members_json(x, 0, depth) {
        let head = ("@type"@, JsonModel::Text(url));
        assert((seq![head] + o).skip(1) =~= o);
        lemma_members(x, 0, depth);
    }
}

// ── Outcomes ────────────────────────────────────────────────────────────────

/// What is written is the JSON that is said, or the failure.
pub proof fn law_writes(r: Result<Json, JsonError>, m: Result<JsonModel, Seq<char>>)
    ensures
        writes(r, m) <==> match r {
            Ok(x) => m matches Ok(y) && x@ == y,
            Err(e) => m matches Err(y) && e.text@ == y,
        },
{
}

/// What a JSON value stands for.
pub proof fn law_json_view(j: Json)
    ensures
        match j {
            Json::Null => j@ == JsonModel::Null,
            Json::Bool(b) => j@ == JsonModel::Bool(b),
            Json::Int(n) => j@ == JsonModel::Int(n),
            Json::Double(n) => j@ == JsonModel::Double(n),
            Json::Float(n) => j@ == JsonModel::Float(n),
            Json::Text(s) => j@ == JsonModel::Text(s@),
            Json::Array(a) => j@ matches JsonModel::Array(x) && x.len() == a@.len() && forall|i: int|
                0 <= i < x.len() ==> #[trigger] x[i] == a@[i]@,
            Json::Object(o) => j@ matches JsonModel::Object(x) && x.len() == o@.len()
                && forall|i: int|
                0 <= i < x.len() ==> (#[trigger] x[i]).0 == o@[i].0@ && x[i].1 == o@[i].1@,
        },
{
}

} // verus!
