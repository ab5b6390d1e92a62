//! What every change to a message keeps: its type, the order of its fields and
//! of the entries of its maps, the unknown fields it carried, and that no two
//! members of a oneof are set.
use vstd::prelude::*;
use crate::descriptor::{
    consistent_message, distinct_numbers, enum_knows, extension_at, field_at, field_of,
    lemma_field_at, listed_in_oneof, names_oneof, pool_linked, DescriptorPool, EnumType,
    FieldDescriptor, FieldKind, MessageIndex, SingularKind,
};
use crate::map::entries_sorted;
use crate::merge::{clear_members, clear_oneof};
use crate::roundtrip::{in_oneof, stays_unknown};
use crate::shape::{key_fits, scalar_fits};
use crate::unknown::{unknown_depth, unknown_sound};
use crate::value::{
    empty_message, field_del, field_get, field_insert, field_put, field_replace, fields_sorted,
    with_field, MessageModel, ValueModel,
};

verus! {

// ── Order ───────────────────────────────────────────────────────────────────

/// The fields of the message are in the order of their numbers, no number
/// twice, and so are the entries of its maps by their keys; and so for every
/// message in it.
pub open spec fn ordered(m: MessageModel) -> bool
    decreases m,
{
    &&& fields_sorted(m.fields)
    &&& forall|i: int| 0 <= i < m.fields.len() ==> value_ordered((#[trigger] m.fields[i]).1)
}

/// The entries of maps are in order in the value and in every message in it.
pub open spec fn value_ordered(v: ValueModel) -> bool
    decreases v,
{
    match v {
        ValueModel::Message(m) => ordered(m),
        ValueModel::List(l) => forall|i: int| 0 <= i < l.len() ==> value_ordered(#[trigger] l[i]),
        ValueModel::Mapping(e) => entries_sorted(e) && forall|i: int|
            0 <= i < e.len() ==> value_ordered((#[trigger] e[i]).1),
        _ => true,
    }
}

/// The message is ordered but for the entries of its own maps.
pub open spec fn loosely_ordered(m: MessageModel) -> bool {
    &&& fields_sorted(m.fields)
    &&& forall|i: int| 0 <= i < m.fields.len() ==> value_loose((#[trigger] m.fields[i]).1)
}

/// The value is ordered but for its own entries, if it is a map.
pub open spec fn value_loose(v: ValueModel) -> bool {
    match v {
        ValueModel::Mapping(e) => forall|i: int|
            0 <= i < e.len() ==> value_ordered((#[trigger] e[i]).1),
        _ => value_ordered(v),
    }
}

// ── Messages as decoding makes them ─────────────────────────────────────────

/// No two fields of the message belong to one oneof.
pub open spec fn exclusive(m: MessageModel) -> bool {
    forall|i: int, j: int|
        #![trigger m.fields[i], m.fields[j]]
        0 <= i < m.fields.len() && 0 <= j < m.fields.len() && i != j ==> !shares_oneof(
            m.pool,
            m.index,
            m.fields[j].0,
            m.fields[i].0,
        )
}

/// Field `n` names a oneof that number `k` is a member of.
pub open spec fn shares_oneof(pool: DescriptorPool, index: MessageIndex, n: u32, k: u32) -> bool {
    field_of(pool, index, n) matches Some(fd) && in_oneof(pool, index, fd.oneof_index, k)
}

/// The message is one that decoding makes with `depth` levels for the messages
/// in it: every field has a descriptor, which it fits, no two members of a
/// oneof are set, and the unknown fields are such as stay unknown.
pub open spec fn regular(m: MessageModel, depth: nat) -> bool
    decreases m,
{
    &&& m.index.0 < m.pool.message_seq().len()
    &&& fields_sorted(m.fields)
    &&& exclusive(m)
    &&& unknown_sound(m.unknown)
    &&& unknown_depth(m.unknown) <= depth
    &&& forall|i: int|
        0 <= i < m.unknown.len() ==> stays_unknown(m, #[trigger] m.unknown[i], depth)
    &&& forall|i: int|
        0 <= i < m.fields.len() ==> regular_field(m.pool, m.index, #[trigger] m.fields[i], depth)
}

/// The field has a descriptor, which its value fits.
pub open spec fn regular_field(
    pool: DescriptorPool,
    index: MessageIndex,
    f: (u32, ValueModel),
    depth: nat,
) -> bool
    decreases f,
{
    field_of(pool, index, f.0) matches Some(fd) && regular_value(
        pool,
        fd.kind,
        fd.enum_type,
        f.1,
        depth,
    )
}

/// The value fits the kind.
pub open spec fn regular_value(
    pool: DescriptorPool,
    kind: FieldKind,
    enum_type: Option<EnumType>,
    v: ValueModel,
    depth: nat,
) -> bool
    decreases v, 1nat,
{
    match (kind, v) {
        (FieldKind::Singular(k), _) => regular_element(pool, k, enum_type, v, depth),
        (FieldKind::List(k), ValueModel::List(l)) => forall|i: int|
            0 <= i < l.len() ==> regular_element(pool, k, enum_type, #[trigger] l[i], depth),
        (FieldKind::Mapping { key, value }, ValueModel::Mapping(e)) => forall|i: int|
            0 <= i < e.len() ==> key_fits(key, (#[trigger] e[i]).0) && regular_held(
                pool,
                value,
                e[i].1,
                depth,
            ),
        _ => false,
    }
}

/// The element fits the kind.
pub open spec fn regular_element(
    pool: DescriptorPool,
    kind: SingularKind,
    enum_type: Option<EnumType>,
    v: ValueModel,
    depth: nat,
) -> bool
    decreases v, 0nat,
{
    match kind {
        SingularKind::Enum(e) => v matches ValueModel::EnumNumber(n) && enum_knows(
            pool,
            e,
            enum_type,
            n,
        ),
        SingularKind::Scalar(s) => scalar_fits(s, v),
        SingularKind::Message(i) => v matches ValueModel::Message(x) && x.pool == pool && x.index
            == i && depth > 0 && regular(x, (depth - 1) as nat),
    }
}

/// The value of a map entry fits the kind. An entry without a value holds the
/// default: the number 0, declared or not, or a message with nothing set,
/// whether or not a level is left for it.
pub open spec fn regular_held(
    pool: DescriptorPool,
    kind: SingularKind,
    v: ValueModel,
    depth: nat,
) -> bool
    decreases v, 0nat,
{
    match kind {
        SingularKind::Enum(e) => v is EnumNumber,
        SingularKind::Scalar(s) => scalar_fits(s, v),
        SingularKind::Message(i) => v matches ValueModel::Message(x) && (x == empty_message(pool, i)
            || x.pool == pool && x.index == i && depth > 0 && regular(x, (depth - 1) as nat)),
    }
}

// ── Fields put and deleted ──────────────────────────────────────────────────

/// `f` is one of the fields.
pub open spec fn among(fields: Seq<(u32, ValueModel)>, f: (u32, ValueModel)) -> bool {
    exists|j: int| 0 <= j < fields.len() && #[trigger] fields[j] == f
}

/// What is in the fields is there by its number.
pub proof fn lemma_get_among(fields: Seq<(u32, ValueModel)>, n: u32)
    ensures
        field_get(fields, n) matches Some(v) ==> among(fields, (n, v)),
        field_get(fields, n) is None ==> forall|i: int|
            0 <= i < fields.len() ==> (#[trigger] fields[i]).0 != n,
    decreases fields.len(),
{
    if fields.len() > 0 {
        let t = fields.drop_last();
        lemma_get_among(t, n);
        if fields.last().0 == n {
            assert(fields[fields.len() - 1] == (n, fields.last().1));
        } else if let Some(v) = field_get(fields, n) {
            let j = choose|j: int| 0 <= j < t.len() && #[trigger] t[j] == (n, v);
            assert(fields[j] == (n, v));
        } else {
            assert forall|i: int| 0 <= i < fields.len() implies (#[trigger] fields[i]).0 != n by {
                if i < t.len() {
                    assert(t[i].0 != n);
                }
            }
        }
    }
}

/// A field that is there is found by its number.
pub proof fn lemma_among_get(fields: Seq<(u32, ValueModel)>, i: int)
    requires
        fields_sorted(fields),
        0 <= i < fields.len(),
    ensures
        field_get(fields, fields[i].0) == Some(fields[i].1),
    decreases fields.len(),
{
    if i < fields.len() - 1 {
        assert(fields[i].0 < fields[fields.len() - 1].0);
        assert(fields.drop_last()[i] == fields[i]);
        lemma_among_get(fields.drop_last(), i);
    }
}

proof fn lemma_insert_kept(fields: Seq<(u32, ValueModel)>, n: u32, v: ValueModel)
    requires
        fields_sorted(fields),
        field_get(fields, n) is None,
    ensures
        fields_sorted(field_insert(fields, n, v)),
        forall|i: int|
            0 <= i < field_insert(fields, n, v).len() ==> (#[trigger] field_insert(fields, n, v)[i])
                == (n, v) || (among(fields, field_insert(fields, n, v)[i])
                && field_insert(fields, n, v)[i].0 != n),
    decreases fields.len(),
{
    lemma_get_among(fields, n);
    let r = field_insert(fields, n, v);
    if fields.len() == 0 || fields.last().0 < n {
        assert forall|i: int| 0 <= i < r.len() implies (#[trigger] r[i]) == (n, v) || (among(
            fields,
            r[i],
        ) && r[i].0 != n) by {
            if i < fields.len() {
                assert(fields[i] == r[i]);
            }
        }
        assert forall|i: int, j: int| 0 <= i < j < r.len() implies (#[trigger] r[i]).0 < (
        #[trigger] r[j]).0 by {
            if j < fields.len() {
                assert(fields[i].0 < fields[j].0);
            } else if i < fields.len() - 1 {
                assert(fields[i].0 < fields[fields.len() - 1].0);
            }
        }
    } else {
        let t = fields.drop_last();
        let u = field_insert(t, n, v);
        assert(fields_sorted(t)) by {
            assert forall|i: int, j: int| 0 <= i < j < t.len() implies (#[trigger] t[i]).0 < (
            #[trigger] t[j]).0 by {
                assert(fields[i].0 < fields[j].0);
            }
        }
        lemma_insert_kept(t, n, v);
        assert(fields[fields.len() - 1].0 != n);
        assert forall|i: int| 0 <= i < r.len() implies (#[trigger] r[i]) == (n, v) || (among(
            fields,
            r[i],
        ) && r[i].0 != n) by {
            if i < u.len() {
                assert(u[i] == r[i]);
                if u[i] != (n, v) {
                    let j = choose|j: int| 0 <= j < t.len() && #[trigger] t[j] == u[i];
                    assert(fields[j] == r[i]);
                }
            } else {
                assert(fields[fields.len() - 1] == r[i]);
            }
        }
        assert forall|i: int, j: int| 0 <= i < j < r.len() implies (#[trigger] r[i]).0 < (
        #[trigger] r[j]).0 by {
            assert(r[i] == u[i]);
            if j < u.len() {
                assert(u[i].0 < u[j].0);
            } else if u[i] != (n, v) {
                let k = choose|k: int| 0 <= k < t.len() && #[trigger] t[k] == u[i];
                assert(fields[k].0 < fields[fields.len() - 1].0);
            }
        }
    }
}

proof fn lemma_replace_kept(fields: Seq<(u32, ValueModel)>, n: u32, v: ValueModel)
    requires
        fields_sorted(fields),
        field_get(fields, n) is Some,
    ensures
        field_replace(fields, n, v).len() == fields.len(),
        forall|i: int|
            0 <= i < fields.len() ==> (#[trigger] field_replace(fields, n, v)[i]) == (if fields[i].0
                == n {
                (n, v)
            } else {
                fields[i]
            }),
    decreases fields.len(),
{
    if fields.len() > 0 {
        let t = fields.drop_last();
        let r = field_replace(fields, n, v);
        if fields.last().0 == n {
            assert forall|i: int| 0 <= i < fields.len() implies (#[trigger] r[i]) == (if fields[i].0
                == n {
                (n, v)
            } else {
                fields[i]
            }) by {
                if i < t.len() {
                    assert(fields[i].0 < fields[fields.len() - 1].0);
                }
            }
        } else {
            assert(fields_sorted(t)) by {
                assert forall|i: int, j: int| 0 <= i < j < t.len() implies (#[trigger] t[i]).0 < (
                #[trigger] t[j]).0 by {
                    assert(fields[i].0 < fields[j].0);
                }
            }
            lemma_replace_kept(t, n, v);
            let u = field_replace(t, n, v);
            assert forall|i: int| 0 <= i < fields.len() implies (#[trigger] r[i]) == (if fields[i].0
                == n {
                (n, v)
            } else {
                fields[i]
            }) by {
                if i < t.len() {
                    assert(r[i] == u[i]);
                    assert(t[i] == fields[i]);
                }
            }
        }
    }
}

/// Putting a field keeps the fields in order and the others in place.
pub proof fn lemma_put_kept(fields: Seq<(u32, ValueModel)>, n: u32, v: ValueModel)
    requires
        fields_sorted(fields),
    ensures
        fields_sorted(field_put(fields, n, v)),
        forall|i: int|
            0 <= i < field_put(fields, n, v).len() ==> (#[trigger] field_put(fields, n, v)[i]) == (
            n,
            v,
        ) || (among(fields, field_put(fields, n, v)[i]) && field_put(fields, n, v)[i].0 != n),
{
    let r = field_put(fields, n, v);
    if field_get(fields, n) is Some {
        lemma_replace_kept(fields, n, v);
        assert forall|i: int| 0 <= i < r.len() implies (#[trigger] r[i]) == (n, v) || (among(
            fields,
            r[i],
        ) && r[i].0 != n) by {
            assert(fields[i] == fields[i]);
        }
        assert forall|i: int, j: int| 0 <= i < j < r.len() implies (#[trigger] r[i]).0 < (
        #[trigger] r[j]).0 by {
            assert(fields[i].0 < fields[j].0);
        }
    } else {
        lemma_insert_kept(fields, n, v);
    }
}

/// Deleting a field keeps the fields in order and the others in place.
pub proof fn lemma_del_kept(fields: Seq<(u32, ValueModel)>, n: u32)
    requires
        fields_sorted(fields),
    ensures
        fields_sorted(field_del(fields, n)),
        forall|i: int|
            0 <= i < field_del(fields, n).len() ==> (#[trigger] field_del(fields, n)[i]).0 != n
                && among(fields, field_del(fields, n)[i]),
        forall|i: int|
            0 <= i < fields.len() && (#[trigger] fields[i]).0 != n ==> among(
                field_del(fields, n),
                fields[i],
            ),
    decreases fields.len(),
{
    if fields.len() > 0 {
        let t = fields.drop_last();
        let r = field_del(fields, n);
        let last = fields.len() - 1;
        assert(fields_sorted(t)) by {
            assert forall|i: int, j: int| 0 <= i < j < t.len() implies (#[trigger] t[i]).0 < (
            #[trigger] t[j]).0 by {
                assert(fields[i].0 < fields[j].0);
            }
        }
        if fields.last().0 == n {
            assert forall|i: int| 0 <= i < r.len() implies (#[trigger] r[i]).0 != n && among(
                fields,
                r[i],
            ) by {
                assert(fields[i] == r[i]);
                assert(fields[i].0 < fields[last].0);
            }
            assert forall|i: int|
                0 <= i < fields.len() && (#[trigger] fields[i]).0 != n implies among(
                r,
                fields[i],
            ) by {
                assert(r[i] == fields[i]);
            }
        } else {
            lemma_del_kept(t, n);
            let u = field_del(t, n);
            assert forall|i: int| 0 <= i < r.len() implies (#[trigger] r[i]).0 != n && among(
                fields,
                r[i],
            ) by {
                if i < u.len() {
                    assert(u[i] == r[i]);
                    let j = choose|j: int| 0 <= j < t.len() && #[trigger] t[j] == u[i];
                    assert(fields[j] == r[i]);
                } else {
                    assert(fields[last] == r[i]);
                }
            }
            assert forall|i: int, j: int| 0 <= i < j < r.len() implies (#[trigger] r[i]).0 < (
            #[trigger] r[j]).0 by {
                assert(r[i] == u[i]);
                if j < u.len() {
                    assert(u[i].0 < u[j].0);
                } else {
                    let k = choose|k: int| 0 <= k < t.len() && #[trigger] t[k] == u[i];
                    assert(fields[k].0 < fields[last].0);
                }
            }
            assert forall|i: int|
                0 <= i < fields.len() && (#[trigger] fields[i]).0 != n implies among(
                r,
                fields[i],
            ) by {
                if i < t.len() {
                    assert(t[i] == fields[i]);
                    let j = choose|j: int| 0 <= j < u.len() && #[trigger] u[j] == t[i];
                    assert(r[j] == fields[i]);
                } else {
                    assert(r[r.len() - 1] == fields[i]);
                }
            }
        }
    }
}

// ── Oneofs ──────────────────────────────────────────────────────────────────

/// The number is that of one of the members, from the `i`-th on.
spec fn is_member_number(
    declared: Seq<FieldDescriptor>,
    members: Seq<u16>,
    i: nat,
    n: u32,
) -> bool {
    exists|j: int|
        i <= j < members.len() && (#[trigger] members[j]) < declared.len()
            && declared[members[j] as int].number == n
}

proof fn lemma_clear_members_kept(
    fields: Seq<(u32, ValueModel)>,
    declared: Seq<FieldDescriptor>,
    members: Seq<u16>,
    keep: u32,
    i: nat,
)
    requires
        fields_sorted(fields),
    ensures
        ({
            let r = clear_members(fields, declared, members, keep, i);
            &&& fields_sorted(r)
            &&& forall|k: int|
                0 <= k < r.len() ==> among(fields, #[trigger] r[k]) && (is_member_number(
                    declared,
                    members,
                    i,
                    r[k].0,
                ) ==> r[k].0 == keep)
            &&& forall|k: int|
                0 <= k < fields.len() && ((#[trigger] fields[k]).0 == keep || !is_member_number(
                    declared,
                    members,
                    i,
                    fields[k].0,
                )) ==> among(r, fields[k])
        }),
    decreases members.len() - i,
{
    let r = clear_members(fields, declared, members, keep, i);
    if i >= members.len() {
        assert forall|k: int| 0 <= k < r.len() implies among(fields, #[trigger] r[k]) by {
            assert(fields[k] == r[k]);
        }
        assert forall|k: int| 0 <= k < fields.len() implies among(r, #[trigger] fields[k]) by {
            assert(r[k] == fields[k]);
        }
    } else {
        let d = members[i as int] as int;
        let drops = d < declared.len() && declared[d].number != keep;
        let next = if drops {
            field_del(fields, declared[d].number)
        } else {
            fields
        };
        if drops {
            lemma_del_kept(fields, declared[d].number);
        }
        lemma_clear_members_kept(next, declared, members, keep, i + 1);
        assert forall|k: int| 0 <= k < r.len() implies among(fields, #[trigger] r[k]) && (
        is_member_number(declared, members, i, r[k].0) ==> r[k].0 == keep) by {
            let j = choose|j: int| 0 <= j < next.len() && #[trigger] next[j] == r[k];
            assert(among(fields, next[j])) by {
                if !drops {
                    assert(fields[j] == next[j]);
                }
            }
            if is_member_number(declared, members, i, r[k].0) {
                let x = choose|x: int|
                    i <= x < members.len() && (#[trigger] members[x]) < declared.len()
                        && declared[members[x] as int].number == r[k].0;
                if x > i {
                    assert(is_member_number(declared, members, i + 1, r[k].0));
                }
            }
        }
        assert forall|k: int|
            0 <= k < fields.len() && ((#[trigger] fields[k]).0 == keep || !is_member_number(
                declared,
                members,
                i,
                fields[k].0,
            )) implies among(r, fields[k]) by {
            if drops && fields[k].0 == declared[d].number {
                assert(members[i as int] < declared.len());
                assert(is_member_number(declared, members, i, fields[k].0));
            }
            assert(among(next, fields[k])) by {
                if !drops {
                    assert(next[k] == fields[k]);
                }
            }
            let j = choose|j: int| 0 <= j < next.len() && #[trigger] next[j] == fields[k];
            if is_member_number(declared, members, i + 1, fields[k].0) {
                let x = choose|x: int|
                    i + 1 <= x < members.len() && (#[trigger] members[x]) < declared.len()
                        && declared[members[x] as int].number == fields[k].0;
                assert(members[x] < declared.len());
                assert(is_member_number(declared, members, i, fields[k].0));
            }
            assert(next[j].0 == fields[k].0);
        }
    }
}

/// Clearing a oneof keeps the fields in order; of its members only the one to
/// be kept stays, and what is no member stays.
pub proof fn lemma_clear_kept(m: MessageModel, oneof: Option<u16>, keep: u32)
    requires
        fields_sorted(m.fields),
    ensures
        ({
            let r = clear_oneof(m, oneof, keep);
            &&& r.pool == m.pool
            &&& r.index == m.index
            &&& r.unknown == m.unknown
            &&& fields_sorted(r.fields)
            &&& forall|k: int|
                0 <= k < r.fields.len() ==> among(m.fields, #[trigger] r.fields[k]) && (in_oneof(
                    m.pool,
                    m.index,
                    oneof,
                    r.fields[k].0,
                ) ==> r.fields[k].0 == keep)
            &&& forall|k: int|
                0 <= k < m.fields.len() && ((#[trigger] m.fields[k]).0 == keep || !in_oneof(
                    m.pool,
                    m.index,
                    oneof,
                    m.fields[k].0,
                )) ==> among(r.fields, m.fields[k])
        }),
{
    let md = m.pool.message_seq()[m.index.0 as int];
    let r = clear_oneof(m, oneof, keep);
    let known = oneof matches Some(oi) && oi < md.oneofs@.len();
    if known {
        let members = md.oneofs@[oneof->Some_0 as int].field_indices@;
        lemma_clear_members_kept(m.fields, md.fields@, members, keep, 0);
        assert forall|n: u32|
            in_oneof(m.pool, m.index, oneof, n) == is_member_number(
                md.fields@,
                members,
                0,
                n,
            ) by {
            if in_oneof(m.pool, m.index, oneof, n) {
                let k = choose|k: int|
                    0 <= k < members.len() && (#[trigger] members[k]) < md.fields@.len()
                        && md.fields@[members[k] as int].number == n;
                assert(members[k] < md.fields@.len());
            }
            if is_member_number(md.fields@, members, 0, n) {
                let k = choose|k: int|
                    0 <= k < members.len() && (#[trigger] members[k]) < md.fields@.len()
                        && md.fields@[members[k] as int].number == n;
                assert(md.oneofs@[oneof->Some_0 as int].field_indices@[k] < md.fields@.len());
            }
        }
    } else {
        assert forall|k: int| 0 <= k < r.fields.len() implies among(
            m.fields,
            #[trigger] r.fields[k],
        ) by {
            assert(m.fields[k] == r.fields[k]);
        }
        assert forall|k: int| 0 <= k < m.fields.len() implies among(
            r.fields,
            #[trigger] m.fields[k],
        ) by {
            assert(r.fields[k] == m.fields[k]);
        }
    }
}

proof fn lemma_field_at_unique(fields: Seq<FieldDescriptor>, k: int, i: nat)
    requires
        distinct_numbers(fields),
        i <= k < fields.len(),
    ensures
        field_at(fields, fields[k].number, i) == Some(k as nat),
    decreases k - i,
{
    if i < k {
        assert(fields[i as int].number != fields[k].number);
        lemma_field_at_unique(fields, k, i + 1);
    }
}

/// In a linked pool a number is a member of a oneof exactly if its field is
/// a singular one that names it.
pub proof fn lemma_in_oneof(pool: DescriptorPool, index: MessageIndex, oi: u16, n: u32)
    requires
        pool_linked(pool),
        index.0 < pool.message_seq().len(),
    ensures
        in_oneof(pool, index, Some(oi), n) ==> (field_of(pool, index, n) matches Some(fd)
            && fd.oneof_index == Some(oi) && fd.kind is Singular),
        (field_of(pool, index, n) matches Some(fd) && fd.oneof_index == Some(oi)) ==> in_oneof(
            pool,
            index,
            Some(oi),
            n,
        ),
{
    let md = pool.message_seq()[index.0 as int];
    assert(consistent_message(pool.message_seq()[index.0 as int]));
    if in_oneof(pool, index, Some(oi), n) {
        let members = md.oneofs@[oi as int].field_indices@;
        let j = choose|j: int|
            0 <= j < members.len() && (#[trigger] members[j]) < md.fields@.len()
                && md.fields@[members[j] as int].number == n;
        assert(names_oneof(md, oi as int, md.oneofs@[oi as int].field_indices@[j]));
        lemma_field_at_unique(md.fields@, members[j] as int, 0);
    }
    lemma_field_at(md.fields@, n, 0);
    if let Some(fd) = field_of(pool, index, n) {
        if fd.oneof_index == Some(oi) {
            match field_at(md.fields@, n, 0) {
                Some(k) => {
                    assert(listed_in_oneof(md, md.fields@[k as int].oneof_index, k as int));
                    let j = choose|j: int|
                        0 <= j < md.oneofs@[oi as int].field_indices@.len()
                            && #[trigger] md.oneofs@[oi as int].field_indices@[j] == k;
                    assert(md.oneofs@[oi as int].field_indices@[j] < md.fields@.len());
                },
                None => {
                    lemma_extension_found(pool, index, n);
                },
            }
        }
    }
}

proof fn lemma_extension_found(pool: DescriptorPool, index: MessageIndex, n: u32)
    requires
        field_at(pool.message_seq()[index.0 as int].fields@, n, 0) is None,
        field_of(pool, index, n) is Some,
    ensures
        exists|i: int|
            0 <= i < pool.extension_seq().len() && (#[trigger] pool.extension_seq()[i]).field
                == field_of(pool, index, n)->Some_0,
{
    lemma_extension_at_found(pool, index, n, 0);
    let k = extension_at(pool.extension_seq(), index, n, 0)->Some_0;
    assert(pool.extension_seq()[k as int].field == field_of(pool, index, n)->Some_0);
}

proof fn lemma_extension_at_found(pool: DescriptorPool, index: MessageIndex, n: u32, i: nat)
    ensures
        extension_at(pool.extension_seq(), index, n, i) matches Some(k) ==> k
            < pool.extension_seq().len(),
    decreases pool.extension_seq().len() - i,
{
    if i < pool.extension_seq().len() {
        lemma_extension_at_found(pool, index, n, i + 1);
    }
}

/// Putting a field, its oneof siblings cleared, leaves no two members of a
/// oneof set.
pub proof fn lemma_put_exclusive(m: MessageModel, n: u32, v: ValueModel)
    requires
        pool_linked(m.pool),
        m.index.0 < m.pool.message_seq().len(),
        fields_sorted(m.fields),
        exclusive(m),
        field_of(m.pool, m.index, n) is Some,
    ensures
        exclusive(
            with_field(
                clear_oneof(m, field_of(m.pool, m.index, n)->Some_0.oneof_index, n),
                n,
                v,
            ),
        ),
        !(field_of(m.pool, m.index, n)->Some_0.kind is Singular) ==> exclusive(
            with_field(m, n, v),
        ),
{
    let fd = field_of(m.pool, m.index, n)->Some_0;
    lemma_clear_kept(m, fd.oneof_index, n);
    lemma_exclusive_step(m, clear_oneof(m, fd.oneof_index, n), n, v);
    if !(fd.kind is Singular) {
        if let Some(oi) = fd.oneof_index {
            lemma_in_oneof(m.pool, m.index, oi, n);
        }
        assert forall|k: int| 0 <= k < m.fields.len() implies among(
            m.fields,
            #[trigger] m.fields[k],
        ) by {}
        lemma_exclusive_step(m, m, n, v);
    }
}

proof fn lemma_exclusive_step(m: MessageModel, c: MessageModel, n: u32, v: ValueModel)
    requires
        pool_linked(m.pool),
        m.index.0 < m.pool.message_seq().len(),
        fields_sorted(m.fields),
        exclusive(m),
        field_of(m.pool, m.index, n) is Some,
        c.pool == m.pool,
        c.index == m.index,
        fields_sorted(c.fields),
        forall|k: int|
            0 <= k < c.fields.len() ==> among(m.fields, #[trigger] c.fields[k]) && (in_oneof(
                m.pool,
                m.index,
                field_of(m.pool, m.index, n)->Some_0.oneof_index,
                c.fields[k].0,
            ) ==> c.fields[k].0 == n),
    ensures
        exclusive(with_field(c, n, v)),
{
    let r = with_field(c, n, v);
    let fd = field_of(m.pool, m.index, n)->Some_0;
    lemma_put_kept(c.fields, n, v);
    assert forall|i: int, j: int|
        #![trigger r.fields[i], r.fields[j]]
        0 <= i < r.fields.len() && 0 <= j < r.fields.len() && i != j implies !shares_oneof(
        r.pool,
        r.index,
        r.fields[j].0,
        r.fields[i].0,
    ) by {
        let a = r.fields[i];
        let b = r.fields[j];
        assert(a.0 != b.0) by {
            if i < j {
                assert(r.fields[i].0 < r.fields[j].0);
            } else {
                assert(r.fields[j].0 < r.fields[i].0);
            }
        }
        if shares_oneof(r.pool, r.index, b.0, a.0) {
            let fb = field_of(m.pool, m.index, b.0)->Some_0;
            let oi = fb.oneof_index->Some_0;
            lemma_in_oneof(m.pool, m.index, oi, a.0);
            lemma_in_oneof(m.pool, m.index, oi, b.0);
            if b.0 == n {
                assert(field_put(c.fields, n, v)[i] == a);
                assert(among(c.fields, a));
                let x = choose|x: int| 0 <= x < c.fields.len() && #[trigger] c.fields[x] == a;
                assert(c.fields[x].0 == n);
            } else if a.0 == n {
                assert(field_put(c.fields, n, v)[j] == b);
                assert(among(c.fields, b));
                let x = choose|x: int| 0 <= x < c.fields.len() && #[trigger] c.fields[x] == b;
                assert(c.fields[x].0 == n);
            } else {
                assert(field_put(c.fields, n, v)[i] == a);
                assert(field_put(c.fields, n, v)[j] == b);
                let x = choose|x: int| 0 <= x < c.fields.len() && #[trigger] c.fields[x] == a;
                let y = choose|y: int| 0 <= y < c.fields.len() && #[trigger] c.fields[y] == b;
                assert(among(m.fields, c.fields[x]) && among(m.fields, c.fields[y]));
                let p = choose|p: int| 0 <= p < m.fields.len() && #[trigger] m.fields[p] == a;
                let q = choose|q: int| 0 <= q < m.fields.len() && #[trigger] m.fields[q] == b;
                assert(!shares_oneof(m.pool, m.index, m.fields[q].0, m.fields[p].0));
            }
        }
    }
}

} // verus!
