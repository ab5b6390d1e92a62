//! Encoding: the bytes of a message, their number, and the functions that
//! write and count them.
use std::sync::Arc;
use vstd::prelude::*;
use crate::descriptor::{
    field_linked, field_of, DescriptorPool, FieldDescriptor, FieldKind, FieldPresence, MessageIndex,
    ScalarType, SingularKind,
};
use crate::map::MapValue;
use crate::scalar::{
    add_len, capped, delimited_len, element_wire, encode_int32, encode_map_key, encode_scalar,
    int32_bytes, int32_len, is_default, is_default_scalar, is_packable, key_bytes, key_wire,
    map_key_len, map_key_wire_type, packable, scalar_bytes, scalar_len, singular_wire_type,
};
use crate::shape::{scalar_fits, value_fits, value_matches_field_shape, value_matches_scalar};
use crate::unknown::{unknown_bytes, unknown_fields_len, write_unknown_fields};
use crate::value::{
    items_view, lemma_value_holds, DynamicMessage, KeyModel, MessageModel, Value, ValueModel,
};
use crate::wire::{
    delimited_bytes, tag_bytes, tag_len, write_tag, write_varint, EncodeError, WireType,
    MAX_FIELD_NUMBER, MAX_MESSAGE_BYTES,
};

verus! {

// ── The bytes of a message ──────────────────────────────────────────────────

/// A field that does not track presence is not written where it holds the
/// default of its scalar or enum type.
pub open spec fn skips(fd: FieldDescriptor, v: ValueModel) -> bool {
    &&& fd.presence == FieldPresence::Implicit
    &&& match fd.kind {
        FieldKind::Singular(SingularKind::Scalar(_)) => true,
        FieldKind::Singular(SingularKind::Enum(_)) => true,
        _ => false,
    }
    &&& is_default(v)
}

/// The bytes of a message: its fields in the order of their numbers, then its
/// unknown fields in the order in which they arrived.
pub open spec fn message_bytes(m: MessageModel) -> Seq<u8>
    decreases m, 0nat,
{
    set_bytes(m.pool, m.index, m.fields) + unknown_bytes(m.unknown)
}

/// The bytes of set fields, one behind the other. A number that names no field
/// has none.
pub open spec fn set_bytes(
    pool: DescriptorPool,
    index: MessageIndex,
    fields: Seq<(u32, ValueModel)>,
) -> Seq<u8>
    decreases fields, 0nat,
{
    if fields.len() == 0 {
        Seq::empty()
    } else {
        let front = match field_of(pool, index, fields[0].0) {
            Some(fd) => stored_bytes(fd, fields[0].1, pool),
            None => Seq::empty(),
        };
        front + set_bytes(pool, index, fields.subrange(1, fields.len() as int))
    }
}

/// The bytes of a field with its value. A value that is skipped, or that does
/// not fit the field, has none.
pub open spec fn stored_bytes(fd: FieldDescriptor, v: ValueModel, pool: DescriptorPool) -> Seq<u8>
    decreases v, 2nat,
{
    if skips(fd, v) {
        Seq::empty()
    } else {
        field_bytes(fd, v, pool)
    }
}

/// The bytes of a field with its value, skipped or not.
pub open spec fn field_bytes(fd: FieldDescriptor, v: ValueModel, pool: DescriptorPool) -> Seq<u8>
    decreases v, 1nat,
{
    if !value_fits(fd.kind, v, pool) {
        Seq::empty()
    } else {
        match (fd.kind, v) {
            (FieldKind::Singular(k), _) => tagged_bytes(fd.number, k, fd.delimited, v),
            (FieldKind::List(k), ValueModel::List(l)) => if l.len() == 0 {
                Seq::empty()
            } else if fd.packed && packable(k) {
                tag_bytes(fd.number, WireType::LengthDelimited) + delimited_bytes(
                    packed_bytes(k, l),
                )
            } else {
                repeated_bytes(fd.number, k, fd.delimited, l)
            },
            (FieldKind::Mapping { key, value }, ValueModel::Mapping(e)) => entries_bytes(
                fd.number,
                key,
                value,
                e,
            ),
            _ => Seq::empty(),
        }
    }
}

/// The bytes of one element behind a tag of its own.
pub open spec fn tagged_bytes(number: u32, kind: SingularKind, delimited: bool, v: ValueModel) -> Seq<
    u8,
>
    decreases v, 0nat,
{
    let tag = tag_bytes(number, element_wire(kind, delimited));
    match (kind, v) {
        (SingularKind::Scalar(s), _) => if scalar_fits(s, v) {
            tag + scalar_bytes(s, v)
        } else {
            Seq::empty()
        },
        (SingularKind::Enum(_), ValueModel::EnumNumber(n)) => tag + int32_bytes(n),
        (SingularKind::Message(_), ValueModel::Message(m)) => if delimited {
            tag + message_bytes(m) + tag_bytes(number, WireType::EndGroup)
        } else {
            tag + delimited_bytes(message_bytes(m))
        },
        _ => Seq::empty(),
    }
}

/// The bytes of elements that each stand behind a tag.
pub open spec fn repeated_bytes(
    number: u32,
    kind: SingularKind,
    delimited: bool,
    l: Seq<ValueModel>,
) -> Seq<u8>
    decreases l, 0nat,
{
    if l.len() == 0 {
        Seq::empty()
    } else {
        tagged_bytes(number, kind, delimited, l[0]) + repeated_bytes(
            number,
            kind,
            delimited,
            l.subrange(1, l.len() as int),
        )
    }
}

/// The bytes of one element without a tag.
pub open spec fn element_bytes(kind: SingularKind, v: ValueModel) -> Seq<u8>
    decreases v, 0nat,
{
    match (kind, v) {
        (SingularKind::Scalar(s), _) => scalar_bytes(s, v),
        (SingularKind::Enum(_), ValueModel::EnumNumber(n)) => int32_bytes(n),
        (SingularKind::Message(_), ValueModel::Message(m)) => delimited_bytes(message_bytes(m)),
        _ => Seq::empty(),
    }
}

/// The bytes of elements without tags, one behind the other.
pub open spec fn packed_bytes(kind: SingularKind, l: Seq<ValueModel>) -> Seq<u8>
    decreases l, 0nat,
{
    if l.len() == 0 {
        Seq::empty()
    } else {
        element_bytes(kind, l[0]) + packed_bytes(kind, l.subrange(1, l.len() as int))
    }
}

/// The bytes of a map entry: the key as field 1, the value as field 2.
pub open spec fn entry_bytes(
    key: ScalarType,
    value: SingularKind,
    e: (KeyModel, ValueModel),
) -> Seq<u8>
    decreases e, 0nat,
{
    tag_bytes(1, key_wire(key)) + key_bytes(key, e.0) + tag_bytes(2, element_wire(value, false))
        + element_bytes(value, e.1)
}

/// The bytes of map entries, each a payload behind a tag.
pub open spec fn entries_bytes(
    number: u32,
    key: ScalarType,
    value: SingularKind,
    e: Seq<(KeyModel, ValueModel)>,
) -> Seq<u8>
    decreases e, 0nat,
{
    if e.len() == 0 {
        Seq::empty()
    } else {
        tag_bytes(number, WireType::LengthDelimited) + delimited_bytes(
            entry_bytes(key, value, e[0]),
        ) + entries_bytes(number, key, value, e.subrange(1, e.len() as int))
    }
}

// ── Counting ────────────────────────────────────────────────────────────────

/// Whether a field that holds `value` is left out when it is written.
pub fn should_skip_on_encode(fd: &FieldDescriptor, value: &Value) -> (r: bool)
    ensures
        r == skips(*fd, value@),
{
    if fd.presence != FieldPresence::Implicit {
        return false;
    }
    match fd.kind {
        FieldKind::Singular(SingularKind::Scalar(_)) => is_default_scalar(value),
        FieldKind::Singular(SingularKind::Enum(_)) => is_default_scalar(value),
        _ => false,
    }
}

/// The encoded length of one element behind a tag of its own.
pub fn singular_len_with_tag(number: u32, kind: SingularKind, delimited: bool, value: &Value) -> (r:
    usize)
    ensures
        r == capped(tagged_bytes(number, kind, delimited, value@).len()),
    decreases value@, 0nat,
{
    proof {
        lemma_value_holds(value@);
    }
    let tag = tag_len(number, singular_wire_type(kind, delimited));
    let payload = match (kind, value) {
        (SingularKind::Scalar(s), v) => {
            if !value_matches_scalar(s, v) {
                return 0;
            }
            scalar_len(s, v)
        },
        (SingularKind::Enum(_), Value::EnumNumber(n)) => int32_len(*n),
        (SingularKind::Message(_), Value::Message(m)) => {
            if delimited {
                add_len(m.encoded_len(), tag_len(number, WireType::EndGroup))
            } else {
                delimited_len(m.encoded_len())
            }
        },
        _ => {
            return 0;
        },
    };
    add_len(tag, payload)
}

/// The encoded length of one element without a tag.
pub fn packed_element_len(kind: SingularKind, v: &Value) -> (r: usize)
    ensures
        r == capped(element_bytes(kind, v@).len()),
    decreases v@, 0nat,
{
    proof {
        lemma_value_holds(v@);
    }
    match (kind, v) {
        (SingularKind::Scalar(s), v) => scalar_len(s, v),
        (SingularKind::Enum(_), Value::EnumNumber(n)) => int32_len(*n),
        (SingularKind::Message(_), Value::Message(m)) => delimited_len(m.encoded_len()),
        _ => 0,
    }
}

/// The encoded length of a map value.
pub fn map_value_len(kind: SingularKind, v: &Value) -> (r: usize)
    ensures
        r == capped(element_bytes(kind, v@).len()),
    decreases v@, 1nat,
{
    packed_element_len(kind, v)
}

/// The encoded length of elements without tags.
fn packed_len(kind: SingularKind, items: &Vec<Value>) -> (r: usize)
    ensures
        r == capped(packed_bytes(kind, items_view(items@)).len()),
    decreases items_view(items@), 1nat,
{
    let ghost l = items_view(items@);
    let mut len: usize = 0;
    let mut i: usize = 0;
    assert(l.subrange(0, l.len() as int) =~= l);
    while i < items.len()
        invariant
            l == items_view(items@),
            i <= items@.len(),
            capped(len as nat + packed_bytes(kind, l.subrange(i as int, l.len() as int)).len())
                == capped(packed_bytes(kind, l).len()),
        decreases items@.len() - i,
    {
        let ghost tail = l.subrange(i as int, l.len() as int);
        proof {
            assert(tail[0] == items@[i as int]@);
            assert(decreases_to!(l => l[i as int]));
            assert(tail.subrange(1, tail.len() as int) =~= l.subrange(i + 1, l.len() as int));
        }
        len = add_len(len, packed_element_len(kind, &items[i]));
        i = i + 1;
    }
    len
}

/// The encoded length of elements that each stand behind a tag.
fn repeated_len(number: u32, kind: SingularKind, delimited: bool, items: &Vec<Value>) -> (r: usize)
    ensures
        r == capped(repeated_bytes(number, kind, delimited, items_view(items@)).len()),
    decreases items_view(items@), 1nat,
{
    let ghost l = items_view(items@);
    let mut len: usize = 0;
    let mut i: usize = 0;
    assert(l.subrange(0, l.len() as int) =~= l);
    while i < items.len()
        invariant
            l == items_view(items@),
            i <= items@.len(),
            capped(
                len as nat + repeated_bytes(
                    number,
                    kind,
                    delimited,
                    l.subrange(i as int, l.len() as int),
                ).len(),
            ) == capped(repeated_bytes(number, kind, delimited, l).len()),
        decreases items@.len() - i,
    {
        let ghost tail = l.subrange(i as int, l.len() as int);
        proof {
            assert(tail[0] == items@[i as int]@);
            assert(decreases_to!(l => l[i as int]));
            assert(tail.subrange(1, tail.len() as int) =~= l.subrange(i + 1, l.len() as int));
        }
        len = add_len(len, singular_len_with_tag(number, kind, delimited, &items[i]));
        i = i + 1;
    }
    len
}

proof fn lemma_small_tags(w: WireType)
    ensures
        tag_bytes(1, w).len() == 1,
        tag_bytes(2, w).len() == 1,
{
}

/// The encoded length of a map entry, without the tag and the length in front.
fn entry_len(key: ScalarType, value: SingularKind, m: &MapValue, i: usize) -> (r: usize)
    requires
        i < m@.len(),
    ensures
        r == capped(entry_bytes(key, value, m@[i as int]).len()),
    decreases m@, 0nat,
{
    let (k, v) = m.entry(i);
    proof {
        assert(decreases_to!(m@ => m@[i as int]));
        assert(decreases_to!(m@[i as int] => m@[i as int].1));
        lemma_small_tags(key_wire(key));
        lemma_small_tags(element_wire(value, false));
    }
    add_len(add_len(1, map_key_len(key, k)), add_len(1, map_value_len(value, v)))
}

/// The encoded length of map entries.
fn entries_len(number: u32, key: ScalarType, value: SingularKind, m: &MapValue) -> (r: usize)
    ensures
        r == capped(entries_bytes(number, key, value, m@).len()),
    decreases m@, 1nat,
{
    let ghost e = m@;
    let mut len: usize = 0;
    let mut i: usize = 0;
    assert(e.subrange(0, e.len() as int) =~= e);
    while i < m.len()
        invariant
            e == m@,
            i <= e.len(),
            capped(
                len as nat + entries_bytes(
                    number,
                    key,
                    value,
                    e.subrange(i as int, e.len() as int),
                ).len(),
            ) == capped(entries_bytes(number, key, value, e).len()),
        decreases e.len() - i,
    {
        let ghost tail = e.subrange(i as int, e.len() as int);
        proof {
            assert(tail[0] == e[i as int]);
            assert(tail.subrange(1, tail.len() as int) =~= e.subrange(i + 1, e.len() as int));
        }
        let body = delimited_len(entry_len(key, value, m, i));
        len = add_len(len, add_len(tag_len(number, WireType::LengthDelimited), body));
        i = i + 1;
    }
    len
}

/// The encoded length of a field with its value.
pub fn encoded_field_len(fd: &FieldDescriptor, value: &Value, pool: &Arc<DescriptorPool>) -> (r:
    usize)
    requires
        field_linked(**pool, *fd),
    ensures
        r == capped(field_bytes(*fd, value@, **pool).len()),
    decreases value@, 1nat,
{
    if !value_matches_field_shape(fd.kind, value, pool) {
        return 0;
    }
    proof {
        lemma_value_holds(value@);
        if value@ is List {
            assert(decreases_to!(value@ => value@->List_0));
        }
        if value@ is Mapping {
            assert(decreases_to!(value@ => value@->Mapping_0));
        }
    }
    match (fd.kind, value) {
        (FieldKind::Singular(k), v) => singular_len_with_tag(fd.number, k, fd.delimited, v),
        (FieldKind::List(k), Value::List(items)) => {
            if items.len() == 0 {
                0
            } else if fd.packed && is_packable(k) {
                add_len(
                    tag_len(fd.number, WireType::LengthDelimited),
                    delimited_len(packed_len(k, items)),
                )
            } else {
                repeated_len(fd.number, k, fd.delimited, items)
            }
        },
        (FieldKind::Mapping { key, value: vk }, Value::Mapping(m)) => entries_len(
            fd.number,
            key,
            vk,
            m,
        ),
        _ => 0,
    }
}

impl DynamicMessage {
    /// The encoded length: the number of bytes that `encode` writes, or the
    /// largest `usize` where there would be more.
    pub fn encoded_len(&self) -> (r: usize)
        ensures
            r == capped(message_bytes(self@).len()),
        decreases self@, 0nat,
    {
        let ghost m = self@;
        let ghost fs = m.fields;
        let mut len = unknown_fields_len(self.unknown_fields());
        let mut i: usize = 0;
        assert(fs.subrange(0, fs.len() as int) =~= fs);
        while i < self.field_count()
            invariant
                m == self@,
                fs == m.fields,
                i <= fs.len(),
                capped(
                    len as nat + set_bytes(
                        m.pool,
                        m.index,
                        fs.subrange(i as int, fs.len() as int),
                    ).len(),
                ) == capped(message_bytes(m).len()),
            decreases fs.len() - i,
        {
            let (number, value) = self.field_entry(i);
            let ghost tail = fs.subrange(i as int, fs.len() as int);
            proof {
                assert(tail[0] == fs[i as int]);
                assert(tail.subrange(1, tail.len() as int) =~= fs.subrange(
                    i + 1,
                    fs.len() as int,
                ));
                assert(decreases_to!(m => m.fields));
                assert(decreases_to!(fs => fs[i as int]));
                assert(decreases_to!(fs[i as int] => fs[i as int].1));
            }
            if let Some(fd) = self.field_or_extension(number) {
                assert(stored_bytes(*fd, value@, m.pool) == if skips(*fd, value@) {
                    Seq::<u8>::empty()
                } else {
                    field_bytes(*fd, value@, m.pool)
                });
                if !should_skip_on_encode(fd, value) {
                    len = add_len(len, encoded_field_len(fd, value, self.pool()));
                }
            }
            i = i + 1;
        }
        len
    }
}

// ── Writing ─────────────────────────────────────────────────────────────────

/// Appends one element behind a tag of its own.
pub fn encode_singular_with_tag(
    number: u32,
    kind: SingularKind,
    delimited: bool,
    value: &Value,
    buf: &mut Vec<u8>,
)
    requires
        1 <= number <= MAX_FIELD_NUMBER,
        tagged_bytes(number, kind, delimited, value@).len() <= usize::MAX,
    ensures
        final(buf)@ == old(buf)@ + tagged_bytes(number, kind, delimited, value@),
    decreases value@, 0nat,
{
    let ghost before = buf@;
    proof {
        lemma_value_holds(value@);
    }
    match (kind, value) {
        (SingularKind::Scalar(s), v) => {
            if value_matches_scalar(s, v) {
                write_tag(number, singular_wire_type(kind, delimited), buf);
                encode_scalar(s, v, buf);
            }
        },
        (SingularKind::Enum(_), Value::EnumNumber(n)) => {
            write_tag(number, singular_wire_type(kind, delimited), buf);
            encode_int32(*n, buf);
        },
        (SingularKind::Message(_), Value::Message(m)) => {
            write_tag(number, singular_wire_type(kind, delimited), buf);
            if delimited {
                m.encode_unchecked(buf);
                write_tag(number, WireType::EndGroup, buf);
            } else {
                write_varint(m.encoded_len() as u64, buf);
                m.encode_unchecked(buf);
            }
        },
        _ => {},
    }
    assert(buf@ =~= before + tagged_bytes(number, kind, delimited, value@));
}

/// Appends one element without a tag.
pub fn encode_packed_element(kind: SingularKind, v: &Value, buf: &mut Vec<u8>)
    requires
        element_bytes(kind, v@).len() <= usize::MAX,
    ensures
        final(buf)@ == old(buf)@ + element_bytes(kind, v@),
    decreases v@, 0nat,
{
    let ghost before = buf@;
    proof {
        lemma_value_holds(v@);
    }
    match (kind, v) {
        (SingularKind::Scalar(s), v) => encode_scalar(s, v, buf),
        (SingularKind::Enum(_), Value::EnumNumber(n)) => encode_int32(*n, buf),
        (SingularKind::Message(_), Value::Message(m)) => {
            write_varint(m.encoded_len() as u64, buf);
            m.encode_unchecked(buf);
        },
        _ => {},
    }
    assert(buf@ =~= before + element_bytes(kind, v@));
}

/// Appends elements without tags.
fn encode_packed(kind: SingularKind, items: &Vec<Value>, buf: &mut Vec<u8>)
    requires
        packed_bytes(kind, items_view(items@)).len() <= usize::MAX,
    ensures
        final(buf)@ == old(buf)@ + packed_bytes(kind, items_view(items@)),
    decreases items_view(items@), 1nat,
{
    let ghost l = items_view(items@);
    let ghost goal = buf@ + packed_bytes(kind, l);
    let mut i: usize = 0;
    assert(l.subrange(0, l.len() as int) =~= l);
    while i < items.len()
        invariant
            l == items_view(items@),
            i <= items@.len(),
            buf@ + packed_bytes(kind, l.subrange(i as int, l.len() as int)) == goal,
            packed_bytes(kind, l.subrange(i as int, l.len() as int)).len() <= usize::MAX,
        decreases items@.len() - i,
    {
        let ghost was = buf@;
        let ghost tail = l.subrange(i as int, l.len() as int);
        let ghost more = l.subrange(i + 1, l.len() as int);
        proof {
            assert(tail[0] == items@[i as int]@);
            assert(decreases_to!(l => l[i as int]));
            assert(tail.subrange(1, tail.len() as int) =~= more);
        }
        encode_packed_element(kind, &items[i], buf);
        i = i + 1;
        assert(buf@ + packed_bytes(kind, more) =~= was + packed_bytes(kind, tail));
    }
    assert(buf@ + Seq::<u8>::empty() =~= buf@);
}

/// Appends elements that each stand behind a tag.
fn encode_repeated(
    number: u32,
    kind: SingularKind,
    delimited: bool,
    items: &Vec<Value>,
    buf: &mut Vec<u8>,
)
    requires
        1 <= number <= MAX_FIELD_NUMBER,
        repeated_bytes(number, kind, delimited, items_view(items@)).len() <= usize::MAX,
    ensures
        final(buf)@ == old(buf)@ + repeated_bytes(number, kind, delimited, items_view(items@)),
    decreases items_view(items@), 1nat,
{
    let ghost l = items_view(items@);
    let ghost goal = buf@ + repeated_bytes(number, kind, delimited, l);
    let mut i: usize = 0;
    assert(l.subrange(0, l.len() as int) =~= l);
    while i < items.len()
        invariant
            1 <= number <= MAX_FIELD_NUMBER,
            l == items_view(items@),
            i <= items@.len(),
            buf@ + repeated_bytes(number, kind, delimited, l.subrange(i as int, l.len() as int))
                == goal,
            repeated_bytes(number, kind, delimited, l.subrange(i as int, l.len() as int)).len()
                <= usize::MAX,
        decreases items@.len() - i,
    {
        let ghost was = buf@;
        let ghost tail = l.subrange(i as int, l.len() as int);
        let ghost more = l.subrange(i + 1, l.len() as int);
        proof {
            assert(tail[0] == items@[i as int]@);
            assert(decreases_to!(l => l[i as int]));
            assert(tail.subrange(1, tail.len() as int) =~= more);
        }
        encode_singular_with_tag(number, kind, delimited, &items[i], buf);
        i = i + 1;
        assert(buf@ + repeated_bytes(number, kind, delimited, more) =~= was + repeated_bytes(
            number,
            kind,
            delimited,
            tail,
        ));
    }
    assert(buf@ + Seq::<u8>::empty() =~= buf@);
}

/// Appends one map entry: its length, its key, its value.
fn encode_entry(key: ScalarType, value: SingularKind, m: &MapValue, i: usize, buf: &mut Vec<u8>)
    requires
        i < m@.len(),
        entry_bytes(key, value, m@[i as int]).len() <= usize::MAX,
    ensures
        final(buf)@ == old(buf)@ + delimited_bytes(entry_bytes(key, value, m@[i as int])),
    decreases m@, 0nat,
{
    let ghost before = buf@;
    let (k, v) = m.entry(i);
    proof {
        assert(decreases_to!(m@ => m@[i as int]));
        assert(decreases_to!(m@[i as int] => m@[i as int].1));
    }
    write_varint(entry_len(key, value, m, i) as u64, buf);
    write_tag(1, map_key_wire_type(key), buf);
    encode_map_key(key, k, buf);
    write_tag(2, singular_wire_type(value, false), buf);
    encode_packed_element(value, v, buf);
    assert(buf@ =~= before + delimited_bytes(entry_bytes(key, value, m@[i as int])));
}

/// Appends map entries.
fn encode_entries(
    number: u32,
    key: ScalarType,
    value: SingularKind,
    m: &MapValue,
    buf: &mut Vec<u8>,
)
    requires
        1 <= number <= MAX_FIELD_NUMBER,
        entries_bytes(number, key, value, m@).len() <= usize::MAX,
    ensures
        final(buf)@ == old(buf)@ + entries_bytes(number, key, value, m@),
    decreases m@, 1nat,
{
    let ghost e = m@;
    let ghost goal = buf@ + entries_bytes(number, key, value, e);
    let mut i: usize = 0;
    assert(e.subrange(0, e.len() as int) =~= e);
    while i < m.len()
        invariant
            1 <= number <= MAX_FIELD_NUMBER,
            e == m@,
            i <= e.len(),
            buf@ + entries_bytes(number, key, value, e.subrange(i as int, e.len() as int)) == goal,
            entries_bytes(number, key, value, e.subrange(i as int, e.len() as int)).len()
                <= usize::MAX,
        decreases e.len() - i,
    {
        let ghost was = buf@;
        let ghost tail = e.subrange(i as int, e.len() as int);
        let ghost more = e.subrange(i + 1, e.len() as int);
        proof {
            assert(tail[0] == e[i as int]);
            assert(tail.subrange(1, tail.len() as int) =~= more);
        }
        write_tag(number, WireType::LengthDelimited, buf);
        encode_entry(key, value, m, i, buf);
        i = i + 1;
        assert(buf@ + entries_bytes(number, key, value, more) =~= was + entries_bytes(
            number,
            key,
            value,
            tail,
        ));
    }
    assert(buf@ + Seq::<u8>::empty() =~= buf@);
}

/// Appends a field with its value; nothing where the value does not fit.
pub fn encode_field(
    fd: &FieldDescriptor,
    value: &Value,
    pool: &Arc<DescriptorPool>,
    buf: &mut Vec<u8>,
)
    requires
        field_linked(**pool, *fd),
        field_bytes(*fd, value@, **pool).len() <= usize::MAX,
    ensures
        final(buf)@ == old(buf)@ + field_bytes(*fd, value@, **pool),
    decreases value@, 1nat,
{
    let ghost before = buf@;
    assert(before + Seq::<u8>::empty() =~= before);
    if !value_matches_field_shape(fd.kind, value, pool) {
        return;
    }
    proof {
        lemma_value_holds(value@);
        if value@ is List {
            assert(decreases_to!(value@ => value@->List_0));
        }
        if value@ is Mapping {
            assert(decreases_to!(value@ => value@->Mapping_0));
        }
    }
    match (fd.kind, value) {
        (FieldKind::Singular(k), v) => {
            encode_singular_with_tag(fd.number, k, fd.delimited, v, buf);
        },
        (FieldKind::List(k), Value::List(items)) => {
            if items.len() == 0 {
                return;
            }
            if fd.packed && is_packable(k) {
                write_tag(fd.number, WireType::LengthDelimited, buf);
                write_varint(packed_len(k, items) as u64, buf);
                encode_packed(k, items, buf);
                assert(buf@ =~= before + field_bytes(*fd, value@, **pool));
            } else {
                encode_repeated(fd.number, k, fd.delimited, items, buf);
            }
        },
        (FieldKind::Mapping { key, value: vk }, Value::Mapping(m)) => {
            encode_entries(fd.number, key, vk, m, buf);
        },
        _ => {},
    }
}

impl DynamicMessage {
    /// Appends the bytes of the message.
    fn encode_unchecked(&self, buf: &mut Vec<u8>)
        requires
            message_bytes(self@).len() <= usize::MAX,
        ensures
            final(buf)@ == old(buf)@ + message_bytes(self@),
        decreases self@, 0nat,
    {
        let ghost m = self@;
        let ghost fs = m.fields;
        let ghost base = buf@;
        let ghost goal = buf@ + set_bytes(m.pool, m.index, fs);
        let mut i: usize = 0;
        assert(fs.subrange(0, fs.len() as int) =~= fs);
        while i < self.field_count()
            invariant
                m == self@,
                fs == m.fields,
                i <= fs.len(),
                buf@ + set_bytes(m.pool, m.index, fs.subrange(i as int, fs.len() as int)) == goal,
                set_bytes(m.pool, m.index, fs.subrange(i as int, fs.len() as int)).len()
                    <= usize::MAX,
            decreases fs.len() - i,
        {
            let ghost was = buf@;
            let (number, value) = self.field_entry(i);
            let ghost tail = fs.subrange(i as int, fs.len() as int);
            let ghost more = fs.subrange(i + 1, fs.len() as int);
            proof {
                assert(tail[0] == fs[i as int]);
                assert(tail.subrange(1, tail.len() as int) =~= more);
                assert(decreases_to!(m => m.fields));
                assert(decreases_to!(fs => fs[i as int]));
                assert(decreases_to!(fs[i as int] => fs[i as int].1));
            }
            if let Some(fd) = self.field_or_extension(number) {
                assert(stored_bytes(*fd, value@, m.pool) == if skips(*fd, value@) {
                    Seq::<u8>::empty()
                } else {
                    field_bytes(*fd, value@, m.pool)
                });
                if !should_skip_on_encode(fd, value) {
                    encode_field(fd, value, self.pool(), buf);
                }
            }
            i = i + 1;
            assert(buf@ + set_bytes(m.pool, m.index, more) =~= was + set_bytes(
                m.pool,
                m.index,
                tail,
            ));
        }
        assert(buf@ + Seq::<u8>::empty() =~= buf@);
        write_unknown_fields(self.unknown_fields(), buf);
        assert(buf@ =~= base + message_bytes(m));
    }

    /// Encodes this message into `buf`.
    ///
    /// A stored value whose shape does not match its field is left out, as the
    /// whole field: one invalid element suppresses its entire list or map. A
    /// nested message counts as invalid unless it lives in this message's own
    /// pool. The encoded size must not exceed `MAX_MESSAGE_BYTES`.
    pub fn encode(&self, buf: &mut Vec<u8>)
        requires
            message_bytes(self@).len() <= MAX_MESSAGE_BYTES,
        ensures
            final(buf)@ == old(buf)@ + message_bytes(self@),
    {
        self.encode_unchecked(buf);
    }

    /// Encodes, unless the encoded size exceeds `MAX_MESSAGE_BYTES`; then
    /// nothing is written.
    pub fn try_encode(&self, buf: &mut Vec<u8>) -> (r: Result<(), EncodeError>)
        ensures
            if message_bytes(self@).len() <= MAX_MESSAGE_BYTES {
                r is Ok && final(buf)@ == old(buf)@ + message_bytes(self@)
            } else {
                r is Err && r->Err_0 == EncodeError::MessageTooLarge && final(buf)@ == old(buf)@
            },
    {
        if let Err(e) = Self::checked_encode_size(self.encoded_len()) {
            return Err(e);
        }
        self.encode_unchecked(buf);
        Ok(())
    }

    /// Encodes this message to a fresh vector. The encoded size must not exceed
    /// `MAX_MESSAGE_BYTES`.
    pub fn encode_to_vec(&self) -> (r: Vec<u8>)
        requires
            message_bytes(self@).len() <= MAX_MESSAGE_BYTES,
        ensures
            r@ == message_bytes(self@),
    {
        let mut buf: Vec<u8> = Vec::new();
        self.encode_unchecked(&mut buf);
        assert(buf@ =~= message_bytes(self@));
        buf
    }

    /// Encodes to a fresh vector, unless the encoded size exceeds
    /// `MAX_MESSAGE_BYTES`.
    pub fn try_encode_to_vec(&self) -> (r: Result<Vec<u8>, EncodeError>)
        ensures
            if message_bytes(self@).len() <= MAX_MESSAGE_BYTES {
                r is Ok && r->Ok_0@ == message_bytes(self@)
            } else {
                r is Err && r->Err_0 == EncodeError::MessageTooLarge
            },
    {
        let len = match Self::checked_encode_size(self.encoded_len()) {
            Ok(len) => len,
            Err(e) => return Err(e),
        };
        let mut buf: Vec<u8> = Vec::with_capacity(len);
        self.encode_unchecked(&mut buf);
        assert(buf@ =~= message_bytes(self@));
        Ok(buf)
    }

    /// Checks an encoded size against `MAX_MESSAGE_BYTES`.
    pub fn checked_encode_size(len: usize) -> (r: Result<usize, EncodeError>)
        ensures
            if len <= MAX_MESSAGE_BYTES {
                r is Ok && r->Ok_0 == len
            } else {
                r is Err && r->Err_0 == EncodeError::MessageTooLarge
            },
    {
        match check_size(saturate_size(len as u64)) {
            Ok(_) => Ok(len),
            Err(e) => Err(e),
        }
    }
}

/// A size as a `u32`, the largest where it does not fit.
///
/// Calls `buffa::saturate_size`.
#[verifier::external_body]
fn saturate_size(len: u64) -> (r: u32)
    ensures
        r == if len > u32::MAX {
            u32::MAX
        } else {
            len as u32
        },
{
    buffa::saturate_size(len)
}

/// Passes a size on, unless it exceeds `MAX_MESSAGE_BYTES`.
///
/// Calls `buffa::checked_encode_size`.
#[verifier::external_body]
fn check_size(size: u32) -> (r: Result<u32, EncodeError>)
    ensures
        if size <= MAX_MESSAGE_BYTES {
            r is Ok && r->Ok_0 == size
        } else {
            r is Err && r->Err_0 == EncodeError::MessageTooLarge
        },
{
    buffa::checked_encode_size(size).map_err(|_| EncodeError::MessageTooLarge)
}

} // verus!
