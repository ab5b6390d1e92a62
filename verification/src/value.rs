//! Values, map keys, maps and messages: the executable types, and the
//! mathematical values that they stand for.
use std::sync::Arc;
use vstd::prelude::*;
use buffa::UnknownFields;
use crate::descriptor::{
    field_linked, field_of, DescriptorPool, FieldDescriptor, MessageDescriptor, MessageIndex,
    MessageType,
};
use crate::map::MapValue;
use crate::unknown::{copy_unknown_fields, no_unknown_fields, unknown_entries, UnknownEntry};

verus! {

/// A map key.
#[derive(Debug)]
pub enum MapKey {
    Bool(bool),
    I32(i32),
    I64(i64),
    U32(u32),
    U64(u64),
    String(String),
}

/// The value of a field. Floating-point numbers are held as their bits.
pub enum Value {
    Bool(bool),
    I32(i32),
    I64(i64),
    U32(u32),
    U64(u64),
    F32(u32),
    F64(u64),
    String(String),
    Bytes(Vec<u8>),
    EnumNumber(i32),
    Message(DynamicMessage),
    List(Vec<Value>),
    Mapping(MapValue),
}

/// A dynamically typed message: its type, its set fields in the order of their
/// numbers, and the unknown fields it carries.
pub struct DynamicMessage {
    ty: MessageType,
    fields: FieldValues,
    unknown: UnknownFields,
}

/// Values by field number: the numbers increase from entry to entry.
struct FieldValues {
    entries: Vec<(u32, Value)>,
}

/// What a `MapKey` stands for.
#[verifier::ext_equal]
pub enum KeyModel {
    Bool(bool),
    I32(i32),
    I64(i64),
    U32(u32),
    U64(u64),
    Text(Seq<char>),
}

/// What a `Value` stands for.
#[verifier::ext_equal]
pub enum ValueModel {
    Bool(bool),
    I32(i32),
    I64(i64),
    U32(u32),
    U64(u64),
    F32(u32),
    F64(u64),
    Text(Seq<char>),
    Bytes(Seq<u8>),
    EnumNumber(i32),
    Message(MessageModel),
    List(Seq<ValueModel>),
    Mapping(Seq<(KeyModel, ValueModel)>),
}

/// What a `DynamicMessage` stands for.
#[verifier::ext_equal]
pub struct MessageModel {
    pub pool: DescriptorPool,
    pub index: MessageIndex,
    pub fields: Seq<(u32, ValueModel)>,
    pub unknown: Seq<UnknownEntry>,
}

impl MapKey {
    pub open spec fn view(&self) -> KeyModel {
        match *self {
            MapKey::Bool(b) => KeyModel::Bool(b),
            MapKey::I32(n) => KeyModel::I32(n),
            MapKey::I64(n) => KeyModel::I64(n),
            MapKey::U32(n) => KeyModel::U32(n),
            MapKey::U64(n) => KeyModel::U64(n),
            MapKey::String(s) => KeyModel::Text(s@),
        }
    }
}

/// What the elements of a list stand for.
pub open spec fn items_view(items: Seq<Value>) -> Seq<ValueModel>
    decreases items,
{
    Seq::new(items.len(), |i: int| if 0 <= i < items.len() { items[i].view() } else { arbitrary() })
}

/// What the entries of a map stand for.
pub open spec fn entries_view(entries: Seq<(MapKey, Value)>) -> Seq<(KeyModel, ValueModel)>
    decreases entries,
{
    Seq::new(
        entries.len(),
        |i: int|
            if 0 <= i < entries.len() {
                (entries[i].0@, entries[i].1.view())
            } else {
                arbitrary()
            },
    )
}

/// What the set fields of a message stand for.
pub open spec fn fields_view(fields: Seq<(u32, Value)>) -> Seq<(u32, ValueModel)>
    decreases fields,
{
    Seq::new(
        fields.len(),
        |i: int|
            if 0 <= i < fields.len() {
                (fields[i].0, fields[i].1.view())
            } else {
                arbitrary()
            },
    )
}

impl Value {
    pub open spec fn view(&self) -> ValueModel
        decreases self,
    {
        match *self {
            Value::Bool(b) => ValueModel::Bool(b),
            Value::I32(n) => ValueModel::I32(n),
            Value::I64(n) => ValueModel::I64(n),
            Value::U32(n) => ValueModel::U32(n),
            Value::U64(n) => ValueModel::U64(n),
            Value::F32(n) => ValueModel::F32(n),
            Value::F64(n) => ValueModel::F64(n),
            Value::String(s) => ValueModel::Text(s@),
            Value::Bytes(b) => ValueModel::Bytes(b@),
            Value::EnumNumber(n) => ValueModel::EnumNumber(n),
            Value::Message(m) => ValueModel::Message(m.view()),
            Value::List(l) => ValueModel::List(items_view(l@)),
            Value::Mapping(m) => ValueModel::Mapping(m.view()),
        }
    }
}

impl DynamicMessage {
    pub closed spec fn view(&self) -> MessageModel
        decreases self,
    {
        MessageModel {
            pool: self.ty.of_pool(),
            index: self.ty.at_index(),
            fields: fields_view(self.fields.entries@),
            unknown: unknown_entries(self.unknown),
        }
    }
}

/// The message of a type that has nothing set.
pub open spec fn empty_message(pool: DescriptorPool, index: MessageIndex) -> MessageModel {
    MessageModel { pool, index, fields: Seq::empty(), unknown: Seq::empty() }
}

// ── Fields by number ────────────────────────────────────────────────────────

/// The value of field `n`.
pub open spec fn field_get(fields: Seq<(u32, ValueModel)>, n: u32) -> Option<ValueModel>
    decreases fields.len(),
{
    if fields.len() == 0 {
        None
    } else if fields.last().0 == n {
        Some(fields.last().1)
    } else {
        field_get(fields.drop_last(), n)
    }
}

/// The fields with `v` as a new field `n`, in the place where its number
/// belongs.
pub open spec fn field_insert(fields: Seq<(u32, ValueModel)>, n: u32, v: ValueModel) -> Seq<
    (u32, ValueModel),
>
    decreases fields.len(),
{
    if fields.len() == 0 || fields.last().0 < n {
        fields.push((n, v))
    } else {
        field_insert(fields.drop_last(), n, v).push(fields.last())
    }
}

/// The fields with `v` as the value of field `n`.
pub open spec fn field_put(fields: Seq<(u32, ValueModel)>, n: u32, v: ValueModel) -> Seq<
    (u32, ValueModel),
> {
    if field_get(fields, n) is Some {
        field_replace(fields, n, v)
    } else {
        field_insert(fields, n, v)
    }
}

/// The fields with `v` in the place of the value that field `n` has.
pub open spec fn field_replace(fields: Seq<(u32, ValueModel)>, n: u32, v: ValueModel) -> Seq<
    (u32, ValueModel),
>
    decreases fields.len(),
{
    if fields.len() == 0 {
        fields
    } else if fields.last().0 == n {
        fields.drop_last().push((n, v))
    } else {
        field_replace(fields.drop_last(), n, v).push(fields.last())
    }
}

/// The fields without field `n`.
pub open spec fn field_del(fields: Seq<(u32, ValueModel)>, n: u32) -> Seq<(u32, ValueModel)>
    decreases fields.len(),
{
    if fields.len() == 0 {
        fields
    } else if fields.last().0 == n {
        fields.drop_last()
    } else {
        field_del(fields.drop_last(), n).push(fields.last())
    }
}

/// The numbers increase from field to field.
pub open spec fn fields_sorted(fields: Seq<(u32, ValueModel)>) -> bool {
    forall|i: int, j: int| 0 <= i < j < fields.len() ==> (#[trigger] fields[i]).0 < (#[trigger] fields[j]).0
}

/// The message with `v` as the value of field `n`.
pub open spec fn with_field(m: MessageModel, n: u32, v: ValueModel) -> MessageModel {
    MessageModel { fields: field_put(m.fields, n, v), ..m }
}

/// The message without field `n`.
pub open spec fn without_field(m: MessageModel, n: u32) -> MessageModel {
    MessageModel { fields: field_del(m.fields, n), ..m }
}

/// The list that field `n` holds; an empty one where it holds none.
pub open spec fn list_at(fields: Seq<(u32, ValueModel)>, n: u32) -> Seq<ValueModel> {
    match field_get(fields, n) {
        Some(ValueModel::List(l)) => l,
        _ => Seq::empty(),
    }
}

/// The map that field `n` holds; an empty one where it holds none.
pub open spec fn map_at(fields: Seq<(u32, ValueModel)>, n: u32) -> Seq<(KeyModel, ValueModel)> {
    match field_get(fields, n) {
        Some(ValueModel::Mapping(e)) => e,
        _ => Seq::empty(),
    }
}

/// Reading a field gives back what was put there, and the others stay.
pub proof fn lemma_put_get(fields: Seq<(u32, ValueModel)>, n: u32, v: ValueModel, k: u32)
    ensures
        field_get(field_put(fields, n, v), k) == if k == n {
            Some(v)
        } else {
            field_get(fields, k)
        },
{
    lemma_replace_get(fields, n, v, k);
    lemma_insert_get(fields, n, v, k);
}

proof fn lemma_replace_get(fields: Seq<(u32, ValueModel)>, n: u32, v: ValueModel, k: u32)
    ensures
        k != n ==> field_get(field_replace(fields, n, v), k) == field_get(fields, k),
        field_get(fields, n) is Some ==> field_get(field_replace(fields, n, v), n) == Some(v),
    decreases fields.len(),
{
    if fields.len() > 0 {
        let t = fields.drop_last();
        lemma_replace_get(t, n, v, k);
        if fields.last().0 == n {
            assert(t.push((n, v)).drop_last() =~= t);
        } else {
            assert(field_replace(t, n, v).push(fields.last()).drop_last() =~= field_replace(
                t,
                n,
                v,
            ));
        }
    }
}

proof fn lemma_insert_get(fields: Seq<(u32, ValueModel)>, n: u32, v: ValueModel, k: u32)
    ensures
        k != n ==> field_get(field_insert(fields, n, v), k) == field_get(fields, k),
        field_get(fields, n) is None ==> field_get(field_insert(fields, n, v), n) == Some(v),
    decreases fields.len(),
{
    if fields.len() == 0 || fields.last().0 < n {
        assert(fields.push((n, v)).drop_last() =~= fields);
    } else {
        let t = fields.drop_last();
        lemma_insert_get(t, n, v, k);
        assert(field_insert(t, n, v).push(fields.last()).drop_last() =~= field_insert(t, n, v));
    }
}

/// Of two values put in the same field the second stays.
pub proof fn lemma_put_put(fields: Seq<(u32, ValueModel)>, n: u32, v: ValueModel, w: ValueModel)
    ensures
        field_put(field_put(fields, n, v), n, w) == field_put(fields, n, w),
{
    lemma_put_get(fields, n, v, n);
    lemma_replace_replace(fields, n, v, w);
    lemma_insert_replace(fields, n, v, w);
}

proof fn lemma_replace_replace(
    fields: Seq<(u32, ValueModel)>,
    n: u32,
    v: ValueModel,
    w: ValueModel,
)
    ensures
        field_replace(field_replace(fields, n, v), n, w) == field_replace(fields, n, w),
    decreases fields.len(),
{
    if fields.len() > 0 {
        let t = fields.drop_last();
        lemma_replace_replace(t, n, v, w);
        if fields.last().0 == n {
            assert(t.push((n, v)).drop_last() =~= t);
        } else {
            assert(field_replace(t, n, v).push(fields.last()).drop_last() =~= field_replace(
                t,
                n,
                v,
            ));
        }
    }
}

proof fn lemma_insert_replace(
    fields: Seq<(u32, ValueModel)>,
    n: u32,
    v: ValueModel,
    w: ValueModel,
)
    ensures
        field_get(fields, n) is None ==> field_replace(field_insert(fields, n, v), n, w)
            == field_insert(fields, n, w),
    decreases fields.len(),
{
    if fields.len() == 0 || fields.last().0 < n {
        assert(fields.push((n, v)).drop_last() =~= fields);
    } else {
        let t = fields.drop_last();
        lemma_insert_replace(t, n, v, w);
        assert(field_insert(t, n, v).push(fields.last()).drop_last() =~= field_insert(t, n, v));
    }
}

/// Putting back what is there changes nothing.
pub proof fn lemma_put_same(fields: Seq<(u32, ValueModel)>, n: u32)
    ensures
        field_get(fields, n) matches Some(v) ==> field_put(fields, n, v) == fields,
    decreases fields.len(),
{
    if fields.len() > 0 {
        let t = fields.drop_last();
        lemma_put_same(t, n);
        if let Some(v) = field_get(fields, n) {
            if fields.last().0 == n {
                assert(t.push((n, v)) =~= fields);
            } else {
                assert(t.push(fields.last()) =~= fields);
            }
        }
    }
}

proof fn lemma_field_get_at(fields: Seq<(u32, ValueModel)>, n: u32, p: int)
    requires
        0 <= p <= fields.len(),
        forall|i: int| p <= i < fields.len() ==> (#[trigger] fields[i]).0 != n,
    ensures
        p == 0 ==> field_get(fields, n) is None,
        p > 0 && fields[p - 1].0 == n ==> field_get(fields, n) == Some(fields[p - 1].1),
    decreases fields.len(),
{
    if p < fields.len() {
        lemma_field_get_at(fields.drop_last(), n, p);
    }
}

proof fn lemma_field_insert_at(fields: Seq<(u32, ValueModel)>, n: u32, v: ValueModel, p: int)
    requires
        0 <= p <= fields.len(),
        forall|i: int| p <= i < fields.len() ==> (#[trigger] fields[i]).0 >= n,
        p == 0 || fields[p - 1].0 < n,
    ensures
        field_insert(fields, n, v) == fields.insert(p, (n, v)),
    decreases fields.len(),
{
    if p < fields.len() {
        lemma_field_insert_at(fields.drop_last(), n, v, p);
        assert(fields.drop_last().insert(p, (n, v)).push(fields.last()) =~= fields.insert(
            p,
            (n, v),
        ));
    } else {
        assert(fields.push((n, v)) =~= fields.insert(p, (n, v)));
    }
}

proof fn lemma_field_replace_at(fields: Seq<(u32, ValueModel)>, n: u32, v: ValueModel, p: int)
    requires
        0 < p <= fields.len(),
        forall|i: int| p <= i < fields.len() ==> (#[trigger] fields[i]).0 != n,
        fields[p - 1].0 == n,
    ensures
        field_replace(fields, n, v) == fields.update(p - 1, (n, v)),
    decreases fields.len(),
{
    if p < fields.len() {
        lemma_field_replace_at(fields.drop_last(), n, v, p);
        assert(fields.drop_last().update(p - 1, (n, v)).push(fields.last()) =~= fields.update(
            p - 1,
            (n, v),
        ));
    } else {
        assert(fields.drop_last().push((n, v)) =~= fields.update(p - 1, (n, v)));
    }
}

proof fn lemma_field_del_at(fields: Seq<(u32, ValueModel)>, n: u32, p: int)
    requires
        0 <= p <= fields.len(),
        forall|i: int| p <= i < fields.len() ==> (#[trigger] fields[i]).0 != n,
    ensures
        p == 0 ==> field_del(fields, n) == fields,
        p > 0 && fields[p - 1].0 == n ==> field_del(fields, n) == fields.remove(p - 1),
    decreases fields.len(),
{
    if p < fields.len() {
        lemma_field_del_at(fields.drop_last(), n, p);
        if p == 0 {
            assert(fields.drop_last().push(fields.last()) =~= fields);
        } else if fields[p - 1].0 == n {
            assert(fields.drop_last().remove(p - 1).push(fields.last()) =~= fields.remove(p - 1));
        }
    } else if p > 0 && fields[p - 1].0 == n {
        assert(fields.drop_last() =~= fields.remove(p - 1));
    }
}

fn second_mut<K>(entries: &mut Vec<(K, Value)>, i: usize) -> (r: &mut Value)
    requires
        i < old(entries)@.len(),
    ensures
        *r == old(entries)@[i as int].1,
        final(entries)@ == old(entries)@.update(
            i as int,
            (old(entries)@[i as int].0, *final(r)),
        ),
    no_unwind
{
    &mut entries[i].1
}

/// The numbers increase from entry to entry.
spec fn numbers_sorted(entries: Seq<(u32, Value)>) -> bool {
    forall|i: int, j: int|
        0 <= i < j < entries.len() ==> (#[trigger] entries[i]).0 < (#[trigger] entries[j]).0
}

impl FieldValues {
    #[verifier::type_invariant]
    spec fn in_order(self) -> bool {
        numbers_sorted(self.entries@)
    }

    /// No values.
    fn new() -> (r: Self)
        ensures
            r.entries@ == Seq::<(u32, Value)>::empty(),
    {
        FieldValues { entries: Vec::new() }
    }

    /// The value at position `i`.
    fn value_mut(&mut self, i: usize) -> (r: &mut Value)
        requires
            i < old(self).entries@.len(),
        ensures
            *r == old(self).entries@[i as int].1,
            final(self).entries@ == old(self).entries@.update(
                i as int,
                (old(self).entries@[i as int].0, *final(r)),
            ),
    {
        proof {
            use_type_invariant(&*self);
        }
        second_mut(&mut self.entries, i)
    }

    /// The entries, which are taken out.
    fn take(&mut self) -> (r: Vec<(u32, Value)>)
        ensures
            r@ == old(self).entries@,
            numbers_sorted(r@),
            final(self).entries@ == Seq::<(u32, Value)>::empty(),
    {
        proof {
            use_type_invariant(&*self);
        }
        let mut out: Vec<(u32, Value)> = Vec::new();
        core::mem::swap(&mut out, &mut self.entries);
        out
    }

    /// Puts `v` in the place of the value at position `i`.
    fn set(&mut self, i: usize, v: Value)
        requires
            i < old(self).entries@.len(),
        ensures
            final(self).entries@ == old(self).entries@.update(
                i as int,
                (old(self).entries@[i as int].0, v),
            ),
    {
        let mut entries = self.take();
        let number = entries[i].0;
        entries.set(i, (number, v));
        self.entries = entries;
    }

    /// Puts a value under a new number at position `p`, where it belongs.
    fn insert(&mut self, p: usize, number: u32, v: Value)
        requires
            p <= old(self).entries@.len(),
            p > 0 ==> old(self).entries@[p - 1].0 < number,
            forall|i: int|
                p <= i < old(self).entries@.len() ==> (#[trigger] old(self).entries@[i]).0 > number,
        ensures
            final(self).entries@ == old(self).entries@.insert(p as int, (number, v)),
    {
        let mut entries = self.take();
        let ghost before = entries@;
        entries.insert(p, (number, v));
        proof {
            let after = entries@;
            assert forall|i: int, j: int| 0 <= i < j < after.len() implies (#[trigger] after[i]).0 < (
            #[trigger] after[j]).0 by {
                let a = if i < p {
                    i
                } else {
                    i - 1
                };
                let b = if j < p {
                    j
                } else {
                    j - 1
                };
                assert(i != p ==> after[i] == before[a]);
                assert(j != p ==> after[j] == before[b]);
                if j == p && i < p - 1 {
                    assert(before[i].0 < before[p - 1].0);
                }
            }
        }
        self.entries = entries;
    }

    /// Takes the entry at position `i` out.
    fn remove(&mut self, i: usize) -> (r: (u32, Value))
        requires
            i < old(self).entries@.len(),
        ensures
            r == old(self).entries@[i as int],
            final(self).entries@ == old(self).entries@.remove(i as int),
    {
        let mut entries = self.take();
        let ghost before = entries@;
        let r = entries.remove(i);
        proof {
            let after = entries@;
            assert forall|k: int, j: int| 0 <= k < j < after.len() implies (#[trigger] after[k]).0 < (
            #[trigger] after[j]).0 by {
                let a = if k < i {
                    k
                } else {
                    k + 1
                };
                let b = if j < i {
                    j
                } else {
                    j + 1
                };
                assert(before[a].0 < before[b].0);
            }
        }
        self.entries = entries;
        r
    }
}

impl DynamicMessage {
    /// A message of the given type with nothing set.
    pub fn of_type(ty: MessageType) -> (r: Self)
        ensures
            r@ == empty_message(ty.of_pool(), ty.at_index()),
    {
        let r = DynamicMessage { ty, fields: FieldValues::new(), unknown: no_unknown_fields() };
        assert(r@.fields =~= Seq::<(u32, ValueModel)>::empty());
        r
    }

    /// The descriptor pool that the message's type lives in.
    pub fn pool(&self) -> (r: &Arc<DescriptorPool>)
        ensures
            **r == self@.pool,
            self@.index.0 < r.message_seq().len(),
    {
        self.ty.pool()
    }

    /// The index of the message's type in its pool.
    pub fn message_index(&self) -> (r: MessageIndex)
        ensures
            r == self@.index,
            r.0 < self@.pool.message_seq().len(),
    {
        self.ty.index()
    }

    /// The message's type.
    pub fn message_descriptor(&self) -> (r: &MessageDescriptor)
        ensures
            *r == self@.pool.message_seq()[self@.index.0 as int],
            forall|j: int|
                0 <= j < r.fields@.len() ==> field_linked(self@.pool, #[trigger] r.fields@[j]),
    {
        self.ty.descriptor()
    }

    /// The field that `number` names: one that the message declares, or a
    /// registered extension of it.
    pub fn field_or_extension(&self, number: u32) -> (r: Option<&FieldDescriptor>)
        ensures
            match field_of(self@.pool, self@.index, number) {
                Some(f) => r is Some && *r->0 == f,
                None => r is None,
            },
            r matches Some(f) ==> f.number == number && field_linked(self@.pool, *f),
    {
        self.ty.field_or_extension(number)
    }

    /// The unknown fields that decoding preserved.
    pub fn unknown_fields(&self) -> (r: &UnknownFields)
        ensures
            unknown_entries(*r) == self@.unknown,
    {
        &self.unknown
    }

    pub(crate) fn unknown_mut(&mut self) -> (r: &mut UnknownFields)
        ensures
            unknown_entries(*r) == old(self)@.unknown,
            final(self)@ == (MessageModel { unknown: unknown_entries(*final(r)), ..old(self)@ }),
    {
        &mut self.unknown
    }

    /// The number of fields that are set. They are in the order of their
    /// numbers, no number twice.
    pub fn field_count(&self) -> (r: usize)
        ensures
            r == self@.fields.len(),
            fields_sorted(self@.fields),
    {
        proof {
            use_type_invariant(&self.fields);
        }
        self.fields.entries.len()
    }

    /// The set field at position `i`, in the order of the field numbers.
    pub fn field_entry(&self, i: usize) -> (r: (u32, &Value))
        requires
            i < self@.fields.len(),
        ensures
            (r.0, r.1@) == self@.fields[i as int],
    {
        (self.fields.entries[i].0, &self.fields.entries[i].1)
    }

    /// Mutable access to the value at position `i`.
    pub(crate) fn value_at_mut(&mut self, i: usize) -> (r: &mut Value)
        requires
            i < old(self)@.fields.len(),
        ensures
            r@ == old(self)@.fields[i as int].1,
            final(self)@ == (MessageModel {
                fields: old(self)@.fields.update(
                    i as int,
                    (old(self)@.fields[i as int].0, final(r)@),
                ),
                ..old(self)@
            }),
    {
        let ghost before = self.fields.entries@;
        let r = self.fields.value_mut(i);
        assert(fields_view(before.update(i as int, (before[i as int].0, *final(r))))
            =~= fields_view(before).update(i as int, (before[i as int].0, final(r)@)));
        r
    }

    /// The position behind the last entry numbered `number`, or 0.
    fn behind(&self, number: u32) -> (p: usize)
        ensures
            p <= self.fields.entries@.len(),
            forall|i: int| p <= i < self.fields.entries@.len() ==> (#[trigger] self.fields.entries@[i]).0 != number,
            p > 0 ==> self.fields.entries@[p - 1].0 == number,
    {
        let mut p: usize = self.fields.entries.len();
        while p > 0
            invariant
                p <= self.fields.entries@.len(),
                forall|i: int|
                    p <= i < self.fields.entries@.len() ==> (#[trigger] self.fields.entries@[i]).0 != number,
            decreases p,
        {
            if self.fields.entries[p - 1].0 == number {
                return p;
            }
            p = p - 1;
        }
        p
    }

    /// Looks up a field value by field number, if present.
    pub fn field_by_number(&self, number: u32) -> (r: Option<&Value>)
        ensures
            match field_get(self@.fields, number) {
                Some(v) => r is Some && r->0@ == v,
                None => r is None,
            },
    {
        let p = self.behind(number);
        proof {
            lemma_field_get_at(self@.fields, number, p as int);
        }
        if p > 0 {
            Some(&self.fields.entries[p - 1].1)
        } else {
            None
        }
    }

    /// Mutably borrows a field's value by field number, if present.
    ///
    /// A value of another shape than the field's kind may be written through
    /// the reference; encoding leaves such a field out.
    pub fn field_by_number_mut(&mut self, number: u32) -> (r: Option<&mut Value>)
        ensures
            match field_get(old(self)@.fields, number) {
                Some(v) => r matches Some(x) && x@ == v && final(self)@ == (MessageModel {
                    fields: field_replace(old(self)@.fields, number, final(x)@),
                    ..old(self)@
                }),
                None => r is None && final(self)@ == old(self)@,
            },
    {
        let p = self.behind(number);
        proof {
            lemma_field_get_at(self@.fields, number, p as int);
        }
        if p > 0 {
            let ghost before = self@.fields;
            let r = self.value_at_mut(p - 1);
            proof {
                lemma_field_replace_at(before, number, final(r)@, p as int);
            }
            Some(r)
        } else {
            None
        }
    }

    /// Sets a field by number, whatever its descriptor says.
    pub(crate) fn insert_value(&mut self, number: u32, v: Value)
        ensures
            final(self)@ == with_field(old(self)@, number, v@),
    {
        let ghost before = self.fields.entries@;
        let ghost v0 = v@;
        let q = self.behind(number);
        proof {
            lemma_field_get_at(self@.fields, number, q as int);
        }
        if q > 0 {
            proof {
                lemma_field_replace_at(self@.fields, number, v0, q as int);
            }
            self.fields.set(q - 1, v);
            assert(fields_view(self.fields.entries@) =~= fields_view(before).update(
                q - 1,
                (number, v0),
            ));
            return;
        }
        let mut p: usize = self.fields.entries.len();
        while p > 0 && self.fields.entries[p - 1].0 >= number
            invariant
                self.fields.entries@ == before,
                p <= before.len(),
                forall|i: int| 0 <= i < before.len() ==> (#[trigger] before[i]).0 != number,
                forall|i: int| p <= i < before.len() ==> (#[trigger] before[i]).0 >= number,
            decreases p,
        {
            p = p - 1;
        }
        proof {
            lemma_field_insert_at(self@.fields, number, v0, p as int);
        }
        self.fields.insert(p, number, v);
        assert(fields_view(self.fields.entries@) =~= fields_view(before).insert(
            p as int,
            (number, v0),
        ));
    }

    /// Takes the list out of field `number`, and leaves an empty one there.
    pub(crate) fn take_list(&mut self, number: u32) -> (r: Vec<Value>)
        ensures
            items_view(r@) == list_at(old(self)@.fields, number),
            final(self)@ == with_field(old(self)@, number, ValueModel::List(Seq::empty())),
    {
        let mut out: Vec<Value> = Vec::new();
        assert(items_view(out@) =~= Seq::<ValueModel>::empty());
        if let Some(v) = self.field_by_number_mut(number) {
            if let Value::List(l) = v {
                core::mem::swap(&mut out, l);
                return out;
            }
        }
        proof {
            lemma_put_same(old(self)@.fields, number);
        }
        let none: Vec<Value> = Vec::new();
        assert(items_view(none@) =~= Seq::<ValueModel>::empty());
        self.insert_value(number, Value::List(none));
        out
    }

    /// Takes the map out of field `number`, and leaves an empty one there.
    pub(crate) fn take_map(&mut self, number: u32) -> (r: MapValue)
        ensures
            r@ == map_at(old(self)@.fields, number),
            final(self)@ == with_field(old(self)@, number, ValueModel::Mapping(Seq::empty())),
    {
        let mut out = MapValue::new();
        if let Some(v) = self.field_by_number_mut(number) {
            if let Value::Mapping(m) = v {
                core::mem::swap(&mut out, m);
                return out;
            }
        }
        proof {
            lemma_put_same(old(self)@.fields, number);
        }
        self.insert_value(number, Value::Mapping(MapValue::new()));
        out
    }

    /// Removes a field by number and hands its value out.
    pub(crate) fn remove_value(&mut self, number: u32) -> (r: Option<Value>)
        ensures
            final(self)@ == without_field(old(self)@, number),
            match field_get(old(self)@.fields, number) {
                Some(v) => r matches Some(x) && x@ == v,
                None => r is None,
            },
    {
        let ghost before = self.fields.entries@;
        let p = self.behind(number);
        proof {
            lemma_field_get_at(self@.fields, number, p as int);
            lemma_field_del_at(self@.fields, number, p as int);
        }
        if p > 0 {
            let e = self.fields.remove(p - 1);
            assert(fields_view(self.fields.entries@) =~= fields_view(before).remove(p - 1));
            Some(e.1)
        } else {
            None
        }
    }
}

/// What a value holds is smaller than the value.
pub proof fn lemma_value_holds(v: ValueModel)
    ensures
        v matches ValueModel::Message(m) ==> decreases_to!(v => m),
        v matches ValueModel::List(l) ==> forall|i: int|
            0 <= i < l.len() ==> decreases_to!(v => #[trigger] l[i]),
        v matches ValueModel::Mapping(e) ==> forall|i: int|
            0 <= i < e.len() ==> decreases_to!(v => (#[trigger] e[i]).1),
{
    match v {
        ValueModel::Message(m) => {
            assert(decreases_to!(v => v->Message_0));
        },
        ValueModel::List(l) => {
            assert(decreases_to!(v => v->List_0));
            assert forall|i: int| 0 <= i < l.len() implies decreases_to!(v => #[trigger] l[i]) by {
                assert(decreases_to!(l => l[i]));
            }
        },
        ValueModel::Mapping(e) => {
            assert(decreases_to!(v => v->Mapping_0));
            assert forall|i: int| 0 <= i < e.len() implies decreases_to!(
                v => (#[trigger] e[i]).1) by {
                assert(decreases_to!(e => e[i]));
                assert(decreases_to!(e[i] => e[i].1));
            }
        },
        _ => {},
    }
}

// ── Copies ──────────────────────────────────────────────────────────────────

impl MapKey {
    /// A copy of the key.
    pub fn copy(&self) -> (r: Self)
        ensures
            r@ == self@,
    {
        match self {
            MapKey::Bool(b) => MapKey::Bool(*b),
            MapKey::I32(n) => MapKey::I32(*n),
            MapKey::I64(n) => MapKey::I64(*n),
            MapKey::U32(n) => MapKey::U32(*n),
            MapKey::U64(n) => MapKey::U64(*n),
            MapKey::String(s) => MapKey::String(s.clone()),
        }
    }
}

impl Value {
    /// A copy of the value.
    pub fn copy(&self) -> (r: Self)
        ensures
            r@ == self@,
        decreases self@,
    {
        proof {
            lemma_value_holds(self@);
        }
        match self {
            Value::Bool(b) => Value::Bool(*b),
            Value::I32(n) => Value::I32(*n),
            Value::I64(n) => Value::I64(*n),
            Value::U32(n) => Value::U32(*n),
            Value::U64(n) => Value::U64(*n),
            Value::F32(n) => Value::F32(*n),
            Value::F64(n) => Value::F64(*n),
            Value::String(s) => Value::String(s.clone()),
            Value::Bytes(b) => {
                let c = b.clone();
                assert(c@ =~= b@);
                Value::Bytes(c)
            },
            Value::EnumNumber(n) => Value::EnumNumber(*n),
            Value::Message(m) => Value::Message(m.to_dynamic()),
            Value::List(l) => {
                let mut out: Vec<Value> = Vec::new();
                let mut i: usize = 0;
                while i < l.len()
                    invariant
                        self@ == ValueModel::List(items_view(l@)),
                        i <= l@.len(),
                        items_view(out@) == items_view(l@).take(i as int),
                    decreases l@.len() - i,
                {
                    proof {
                        lemma_value_holds(self@);
                        assert(self@->List_0[i as int] == l@[i as int]@);
                    }
                    let ghost was = out@;
                    let c = l[i].copy();
                    out.push(c);
                    i = i + 1;
                    assert(items_view(out@) =~= items_view(was).push(c@));
                    assert(items_view(l@).take(i as int) =~= items_view(l@).take(i - 1).push(c@));
                }
                assert(items_view(l@).take(i as int) =~= items_view(l@));
                Value::List(out)
            },
            Value::Mapping(m) => {
                let mut out: Vec<(MapKey, Value)> = Vec::new();
                let mut i: usize = 0;
                assert(m@.take(0) =~= entries_view(out@));
                while i < m.len()
                    invariant
                        self@ == ValueModel::Mapping(m@),
                        i <= m@.len(),
                        entries_view(out@) == m@.take(i as int),
                    decreases m@.len() - i,
                {
                    let (k, v) = m.entry(i);
                    proof {
                        lemma_value_holds(self@);
                        assert(self@->Mapping_0[i as int].1 == v@);
                    }
                    let ghost was = out@;
                    let e = (k.copy(), v.copy());
                    out.push(e);
                    i = i + 1;
                    assert(entries_view(out@) =~= entries_view(was).push((e.0@, e.1@)));
                    assert(m@.take(i as int) =~= m@.take(i - 1).push(m@[i - 1]));
                }
                assert(m@.take(i as int) =~= m@);
                Value::Mapping(MapValue::of_entries(out))
            },
        }
    }
}

impl DynamicMessage {
    /// A copy of the message.
    pub fn to_dynamic(&self) -> (r: Self)
        ensures
            r@ == self@,
        decreases self@,
    {
        proof {
            use_type_invariant(&self.fields);
        }
        let mut fields: Vec<(u32, Value)> = Vec::new();
        let mut i: usize = 0;
        assert(self@.fields.take(0) =~= fields_view(fields@));
        while i < self.fields.entries.len()
            invariant
                i <= self.fields.entries@.len(),
                self.fields.entries@.len() == self@.fields.len(),
                numbers_sorted(self.fields.entries@),
                fields@.len() == i,
                forall|k: int|
                    0 <= k < i ==> (#[trigger] fields@[k]).0 == self.fields.entries@[k].0,
                fields_view(fields@) == self@.fields.take(i as int),
            decreases self.fields.entries@.len() - i,
        {
            let (n, v) = self.field_entry(i);
            let ghost was = fields@;
            assert(self@.fields[i as int].1 == v@);
            let c = v.copy();
            fields.push((n, c));
            i = i + 1;
            assert(fields_view(fields@) =~= fields_view(was).push((n, c@)));
            assert(self@.fields.take(i as int) =~= self@.fields.take(i - 1).push(
                self@.fields[i - 1],
            ));
        }
        assert(self@.fields.take(i as int) =~= self@.fields);
        DynamicMessage {
            ty: self.ty.share(),
            fields: FieldValues { entries: fields },
            unknown: copy_unknown_fields(&self.unknown),
        }
    }
}

impl Clone for MapKey {
    fn clone(&self) -> (r: Self)
        ensures
            r@ == self@,
    {
        self.copy()
    }
}

impl Clone for Value {
    fn clone(&self) -> (r: Self)
        ensures
            r@ == self@,
    {
        self.copy()
    }
}

impl Clone for DynamicMessage {
    fn clone(&self) -> (r: Self)
        ensures
            r@ == self@,
    {
        self.to_dynamic()
    }
}

} // verus!
