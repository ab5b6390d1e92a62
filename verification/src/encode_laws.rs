//! What the bytes of fields and messages are made of.
use vstd::prelude::*;
use crate::descriptor::{
    field_of, DescriptorPool, FieldDescriptor, FieldKind, ScalarType, SingularKind,
};
use crate::encode::{
    element_bytes, entries_bytes, entry_bytes, field_bytes, message_bytes, packed_bytes,
    repeated_bytes, set_bytes, stored_bytes, tagged_bytes,
};
use crate::scalar::{is_default, key_bytes, packable, scalar_bytes};
use crate::shape::{key_fits, scalar_fits, singular_fits, value_fits};
use crate::unknown::{payload_bytes, payload_wire, unknown_bytes, UnknownEntry, UnknownPayload};
use crate::value::{KeyModel, MessageModel, ValueModel};
use crate::wire::{delimited_bytes, le_bytes, varint_bytes};
use crate::wire_laws::mod64;

verus! {

/// Byte strings, one behind the other.
pub open spec fn concatenated(parts: Seq<Seq<u8>>) -> Seq<u8>
    decreases parts.len(),
{
    if parts.len() == 0 {
        Seq::empty()
    } else {
        parts[0] + concatenated(parts.skip(1))
    }
}

/// A payload behind a tag of number `n` with the bits of a payload, and its
/// length.
pub open spec fn payload_field(n: u32, b: Seq<u8>) -> Seq<u8> {
    varint_bytes(8 * (n as nat) + 2) + varint_bytes(b.len()) + b
}

// ── Messages ────────────────────────────────────────────────────────────────

/// What a field of a message is written as.
pub open spec fn written(m: MessageModel, i: int) -> Seq<u8> {
    match field_of(m.pool, m.index, m.fields[i].0) {
        Some(fd) => stored_bytes(fd, m.fields[i].1, m.pool),
        None => Seq::empty(),
    }
}

/// A message is written field by field in the order of its fields, and behind
/// them its unknown fields in their order, each behind its tag. A field that has
/// no descriptor is left out.
pub proof fn law_message_bytes(m: MessageModel)
    ensures
        message_bytes(m) == concatenated(Seq::new(m.fields.len(), |i: int| written(m, i)))
            + concatenated(
            Seq::new(m.unknown.len(), |i: int| unknown_field(m.unknown[i])),
        ),
{
    lemma_set_bytes(m, m.fields.len());
    assert(m.fields.subrange(0, m.fields.len() as int) =~= m.fields);
    lemma_unknown_bytes(m.unknown);
}

/// What an unknown field is written as.
pub open spec fn unknown_field(e: UnknownEntry) -> Seq<u8> {
    let n = 8 * (e.number as nat);
    match e.data {
        UnknownPayload::Varint(v) => varint_bytes(n) + varint_bytes(v as nat),
        UnknownPayload::Fixed64(v) => varint_bytes(n + 1) + le_bytes(v as nat, 8),
        UnknownPayload::Fixed32(v) => varint_bytes(n + 5) + le_bytes(v as nat, 4),
        UnknownPayload::LengthDelimited(b) => payload_field(e.number, b),
        UnknownPayload::Group(g) => varint_bytes(n + 3) + unknown_bytes(g) + varint_bytes(n + 4),
    }
}

proof fn lemma_unknown_bytes(us: Seq<UnknownEntry>)
    ensures
        unknown_bytes(us) == concatenated(Seq::new(us.len(), |i: int| unknown_field(us[i]))),
    decreases us.len(),
{
    let parts = Seq::new(us.len(), |i: int| unknown_field(us[i]));
    if us.len() > 0 {
        let t = us.subrange(1, us.len() as int);
        lemma_unknown_bytes(t);
        assert(parts.skip(1) =~= Seq::new(t.len(), |i: int| unknown_field(t[i])));
        let e = us[0];
        assert(crate::wire::tag_bytes(e.number, payload_wire(e.data)) + payload_bytes(e)
            =~= unknown_field(e));
    }
}

proof fn lemma_set_bytes(m: MessageModel, n: nat)
    requires
        n <= m.fields.len(),
    ensures
        set_bytes(m.pool, m.index, m.fields.subrange(m.fields.len() - n, m.fields.len() as int))
            == concatenated(Seq::new(n, |i: int| written(m, m.fields.len() - n + i))),
        n == m.fields.len() ==> set_bytes(
            m.pool,
            m.index,
            m.fields.subrange(0, m.fields.len() as int),
        ) == concatenated(Seq::new(m.fields.len(), |i: int| written(m, i))),
    decreases n,
{
    let parts = Seq::new(n, |i: int| written(m, m.fields.len() - n + i));
    let fs = m.fields.subrange(m.fields.len() - n, m.fields.len() as int);
    if n > 0 {
        lemma_set_bytes(m, (n - 1) as nat);
        assert(fs.subrange(1, fs.len() as int) =~= m.fields.subrange(
            m.fields.len() - n + 1,
            m.fields.len() as int,
        ));
        assert(parts.skip(1) =~= Seq::new(
            (n - 1) as nat,
            |i: int| written(m, m.fields.len() - (n - 1) + i),
        ));
        assert(fs[0] == m.fields[m.fields.len() - n]);
    }
    if n == m.fields.len() {
        assert(parts =~= Seq::new(m.fields.len(), |i: int| written(m, i)));
    }
}

// ── Fields ──────────────────────────────────────────────────────────────────

/// A field is left out where its value does not fit it, and where it does not
/// track presence and holds the default of its scalar or enum type; a list or a
/// map that is empty has no bytes.
pub proof fn law_left_out(fd: FieldDescriptor, v: ValueModel, pool: DescriptorPool)
    ensures
        !value_fits(fd.kind, v, pool) ==> stored_bytes(fd, v, pool) == Seq::<u8>::empty(),
        fd.presence is Implicit && is_default(v) && (fd.kind matches FieldKind::Singular(k)
            && !(k is Message)) ==> stored_bytes(fd, v, pool) == Seq::<u8>::empty(),
        !(fd.presence is Implicit) || !is_default(v) ==> stored_bytes(fd, v, pool) == field_bytes(
            fd,
            v,
            pool,
        ),
        !(fd.kind matches FieldKind::Singular(k) && !(k is Message)) ==> stored_bytes(fd, v, pool)
            == field_bytes(fd, v, pool),
{
}

/// One element stands behind the tag of its field: a scalar or an enum number as
/// its bytes; a message as a payload behind its length, or between the two tags
/// of a group.
pub proof fn law_singular_bytes(fd: FieldDescriptor, v: ValueModel, pool: DescriptorPool)
    requires
        fd.kind is Singular,
        value_fits(fd.kind, v, pool),
    ensures
        field_bytes(fd, v, pool) == one_field(fd.number, fd.kind->Singular_0, fd.delimited, v),
{
    lemma_one_field(fd.number, fd.kind->Singular_0, fd.delimited, v, pool);
}

/// The bits for the wire type of a scalar type.
pub open spec fn wire_bits(s: ScalarType) -> nat {
    match s {
        ScalarType::Double | ScalarType::Fixed64 | ScalarType::Sfixed64 => 1,
        ScalarType::Float | ScalarType::Fixed32 | ScalarType::Sfixed32 => 5,
        ScalarType::String | ScalarType::Bytes => 2,
        _ => 0,
    }
}

/// One element behind a tag.
pub open spec fn one_field(n: u32, kind: SingularKind, delimited: bool, v: ValueModel) -> Seq<u8> {
    let at = 8 * (n as nat);
    match (kind, v) {
        (SingularKind::Scalar(s), _) => varint_bytes(at + wire_bits(s)) + scalar_bytes(s, v),
        (SingularKind::Enum(_), ValueModel::EnumNumber(x)) => varint_bytes(at) + varint_bytes(
            mod64(x as int),
        ),
        (SingularKind::Message(_), ValueModel::Message(x)) => if delimited {
            varint_bytes(at + 3) + message_bytes(x) + varint_bytes(at + 4)
        } else {
            payload_field(n, message_bytes(x))
        },
        _ => Seq::empty(),
    }
}

proof fn lemma_one_field(
    n: u32,
    kind: SingularKind,
    delimited: bool,
    v: ValueModel,
    pool: DescriptorPool,
)
    requires
        singular_fits(kind, v, pool),
    ensures
        tagged_bytes(n, kind, delimited, v) == one_field(n, kind, delimited, v),
{
    assert(tagged_bytes(n, kind, delimited, v) =~= one_field(n, kind, delimited, v));
}

/// An element that is not of its kind has no bytes, with a tag or without one.
pub proof fn law_element_bytes(n: u32, kind: SingularKind, delimited: bool, v: ValueModel)
    ensures
        ({
            let fits = match kind {
                SingularKind::Scalar(s) => scalar_fits(s, v),
                SingularKind::Enum(_) => v is EnumNumber,
                SingularKind::Message(_) => v is Message,
            };
            &&& fits ==> tagged_bytes(n, kind, delimited, v) == one_field(n, kind, delimited, v)
            &&& fits ==> element_bytes(kind, v) == bare_element(kind, v)
            &&& !fits ==> tagged_bytes(n, kind, delimited, v).len() == 0
            &&& !fits ==> element_bytes(kind, v).len() == 0
        }),
{
    if kind matches SingularKind::Message(_) {
        if v matches ValueModel::Message(_) {
            assert(tagged_bytes(n, kind, delimited, v) =~= one_field(n, kind, delimited, v));
        }
    }
}

/// What an element is written as without a tag.
pub open spec fn bare_element(kind: SingularKind, v: ValueModel) -> Seq<u8> {
    match (kind, v) {
        (SingularKind::Scalar(s), _) => scalar_bytes(s, v),
        (SingularKind::Enum(_), ValueModel::EnumNumber(x)) => varint_bytes(mod64(x as int)),
        (SingularKind::Message(_), ValueModel::Message(x)) => varint_bytes(message_bytes(x).len())
            + message_bytes(x),
        _ => Seq::empty(),
    }
}

/// The elements of a list stand each behind a tag of its own or, where the field
/// is packed and they can be, one behind the other in one payload; in the order
/// of the list. An empty list has no bytes.
pub proof fn law_list_bytes(
    fd: FieldDescriptor,
    k: SingularKind,
    l: Seq<ValueModel>,
    pool: DescriptorPool,
)
    requires
        fd.kind == FieldKind::List(k),
        value_fits(fd.kind, ValueModel::List(l), pool),
    ensures
        field_bytes(fd, ValueModel::List(l), pool) == if l.len() == 0 {
            Seq::empty()
        } else if fd.packed && packable(k) {
            payload_field(
                fd.number,
                concatenated(Seq::new(l.len(), |i: int| bare_element(k, l[i]))),
            )
        } else {
            concatenated(
                Seq::new(l.len(), |i: int| one_field(fd.number, k, fd.delimited, l[i])),
            )
        },
{
    lemma_repeated(fd.number, k, fd.delimited, l, pool);
    lemma_packed(k, l);
    let b = packed_bytes(k, l);
    assert(crate::wire::tag_bytes(
        fd.number,
        crate::wire::WireType::LengthDelimited,
    ) + delimited_bytes(b) =~= payload_field(fd.number, b));
}

proof fn lemma_repeated(
    n: u32,
    k: SingularKind,
    delimited: bool,
    l: Seq<ValueModel>,
    pool: DescriptorPool,
)
    requires
        forall|i: int| 0 <= i < l.len() ==> singular_fits(k, #[trigger] l[i], pool),
    ensures
        repeated_bytes(n, k, delimited, l) == concatenated(
            Seq::new(l.len(), |i: int| one_field(n, k, delimited, l[i])),
        ),
    decreases l.len(),
{
    let parts = Seq::new(l.len(), |i: int| one_field(n, k, delimited, l[i]));
    if l.len() > 0 {
        let t = l.subrange(1, l.len() as int);
        lemma_repeated(n, k, delimited, t, pool);
        assert(parts.skip(1) =~= Seq::new(t.len(), |i: int| one_field(n, k, delimited, t[i])));
        lemma_one_field(n, k, delimited, l[0], pool);
    }
}

proof fn lemma_packed(k: SingularKind, l: Seq<ValueModel>)
    ensures
        packed_bytes(k, l) == concatenated(Seq::new(l.len(), |i: int| bare_element(k, l[i]))),
    decreases l.len(),
{
    let parts = Seq::new(l.len(), |i: int| bare_element(k, l[i]));
    if l.len() > 0 {
        let t = l.subrange(1, l.len() as int);
        lemma_packed(k, t);
        assert(parts.skip(1) =~= Seq::new(t.len(), |i: int| bare_element(k, t[i])));
        assert(element_bytes(k, l[0]) =~= bare_element(k, l[0]));
    }
}

/// What a map entry is written as: a payload in which the key is field 1 and the
/// value field 2, both always there.
pub open spec fn one_entry(
    n: u32,
    key: ScalarType,
    value: SingularKind,
    e: (KeyModel, ValueModel),
) -> Seq<u8> {
    payload_field(
        n,
        varint_bytes(8 + wire_bits(key)) + key_bytes(key, e.0) + one_field(2, value, false, e.1),
    )
}

/// The entries of a map stand each behind a tag, in the order of the map.
pub proof fn law_map_bytes(
    fd: FieldDescriptor,
    key: ScalarType,
    value: SingularKind,
    e: Seq<(KeyModel, ValueModel)>,
    pool: DescriptorPool,
)
    requires
        fd.kind == (FieldKind::Mapping { key, value }),
        value_fits(fd.kind, ValueModel::Mapping(e), pool),
    ensures
        field_bytes(fd, ValueModel::Mapping(e), pool) == concatenated(
            Seq::new(e.len(), |i: int| one_entry(fd.number, key, value, e[i])),
        ),
{
    lemma_entries(fd.number, key, value, e, pool);
}

proof fn lemma_entries(
    n: u32,
    key: ScalarType,
    value: SingularKind,
    e: Seq<(KeyModel, ValueModel)>,
    pool: DescriptorPool,
)
    requires
        forall|i: int|
            0 <= i < e.len() ==> key_fits(key, (#[trigger] e[i]).0) && singular_fits(
                value,
                e[i].1,
                pool,
            ),
    ensures
        entries_bytes(n, key, value, e) == concatenated(
            Seq::new(e.len(), |i: int| one_entry(n, key, value, e[i])),
        ),
    decreases e.len(),
{
    let parts = Seq::new(e.len(), |i: int| one_entry(n, key, value, e[i]));
    if e.len() > 0 {
        let t = e.subrange(1, e.len() as int);
        assert forall|i: int| 0 <= i < t.len() implies key_fits(key, (#[trigger] t[i]).0)
            && singular_fits(value, t[i].1, pool) by {
            assert(t[i] == e[i + 1]);
        }
        lemma_entries(n, key, value, t, pool);
        assert(parts.skip(1) =~= Seq::new(t.len(), |i: int| one_entry(n, key, value, t[i])));
        let b = entry_bytes(key, value, e[0]);
        assert(key_fits(key, e[0].0) && singular_fits(value, e[0].1, pool));
        lemma_entry(key, value, e[0], pool);
        assert(crate::wire::tag_bytes(
            n,
            crate::wire::WireType::LengthDelimited,
        ) + delimited_bytes(b) =~= payload_field(n, b));
        assert(payload_field(n, b) == one_entry(n, key, value, e[0]));
    }
}

proof fn lemma_entry(
    key: ScalarType,
    value: SingularKind,
    e: (KeyModel, ValueModel),
    pool: DescriptorPool,
)
    requires
        key_fits(key, e.0),
        singular_fits(value, e.1, pool),
    ensures
        ({
            entry_bytes(key, value, e) == varint_bytes(8 + wire_bits(key))
                + key_bytes(key, e.0) + one_field(
                2,
                value,
                false,
                e.1,
            )
        }),
{
    lemma_one_field(2, value, false, e.1, pool);
    assert(tagged_bytes(2, value, false, e.1) =~= crate::wire::tag_bytes(
        2,
        crate::scalar::element_wire(value, false),
    ) + element_bytes(value, e.1));
    assert(crate::wire::tag_bytes(1, crate::scalar::key_wire(key))
        == varint_bytes(8 + wire_bits(key)));
    assert(entry_bytes(key, value, e) =~= varint_bytes(8 + wire_bits(key))
        + key_bytes(key, e.0) + tagged_bytes(
        2,
        value,
        false,
        e.1,
    ));
}

} // verus!
