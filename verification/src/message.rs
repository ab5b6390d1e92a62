//! Reading, setting and clearing the fields of a message by descriptor.
use std::sync::Arc;
use vstd::prelude::*;
use crate::adopt::{adopt_value, adopted};
use crate::descriptor::{
    field_of, is_same_field, kind_linked, share_pool, DescriptorPool, FieldDescriptor, FieldKind,
    FieldPresence, MessageType, ScalarType, SingularKind,
};
use crate::merge::{clear_oneof, element_default};
use crate::scalar::{is_default, is_default_scalar, scalar_default};
use crate::shape::full_name;
use crate::value::{
    entries_view, field_get, field_replace, items_view, with_field, without_field, DynamicMessage,
    MapKey, MessageModel, Value, ValueModel,
};

verus! {

// ── Members ─────────────────────────────────────────────────────────────────

/// The descriptor is the message's own: a field that it declares, or a
/// registered extension of it.
pub open spec fn is_member(m: MessageModel, field: FieldDescriptor) -> bool {
    field_of(m.pool, m.index, field.number) == Some(field)
}

/// Why a field was not set or cleared.
#[derive(Debug)]
pub enum ReflectError {
    /// The descriptor is not one of the message.
    FieldNotMember { message: String, field: String },
    /// The value is none that the field holds.
    WrongValueKind { message: String, field: String, expected: String, actual: String },
}

/// What a `ReflectError` stands for.
#[verifier::ext_equal]
pub enum ReflectErrorModel {
    FieldNotMember { message: Seq<char>, field: Seq<char> },
    WrongValueKind {
        message: Seq<char>,
        field: Seq<char>,
        expected: Seq<char>,
        actual: Seq<char>,
    },
}

impl ReflectError {
    pub open spec fn view(&self) -> ReflectErrorModel {
        match *self {
            ReflectError::FieldNotMember { message, field } => ReflectErrorModel::FieldNotMember {
                message: message@,
                field: field@,
            },
            ReflectError::WrongValueKind { message, field, expected, actual } => {
                ReflectErrorModel::WrongValueKind {
                    message: message@,
                    field: field@,
                    expected: expected@,
                    actual: actual@,
                }
            },
        }
    }
}

// ── Values by reference ─────────────────────────────────────────────────────

/// A message that is borrowed, or made for the reader.
pub enum ReflectCow<'a> {
    Borrowed(&'a DynamicMessage),
    Owned(Box<DynamicMessage>),
}

/// A value by reference.
pub enum ValueRef<'a> {
    Bool(bool),
    I32(i32),
    I64(i64),
    U32(u32),
    U64(u64),
    F32(u32),
    F64(u64),
    String(&'a str),
    Bytes(&'a [u8]),
    EnumNumber(i32),
    Message(ReflectCow<'a>),
    List(&'a [Value]),
    Mapping(&'a [(MapKey, Value)]),
}

impl<'a> ReflectCow<'a> {
    pub open spec fn view(&self) -> MessageModel {
        match *self {
            ReflectCow::Borrowed(m) => m@,
            ReflectCow::Owned(m) => m@,
        }
    }

    /// The message.
    pub fn message(&self) -> (r: &DynamicMessage)
        ensures
            r@ == self@,
    {
        match self {
            ReflectCow::Borrowed(m) => m,
            ReflectCow::Owned(m) => m,
        }
    }
}

impl<'a> ValueRef<'a> {
    pub open spec fn view(&self) -> ValueModel {
        match *self {
            ValueRef::Bool(b) => ValueModel::Bool(b),
            ValueRef::I32(n) => ValueModel::I32(n),
            ValueRef::I64(n) => ValueModel::I64(n),
            ValueRef::U32(n) => ValueModel::U32(n),
            ValueRef::U64(n) => ValueModel::U64(n),
            ValueRef::F32(n) => ValueModel::F32(n),
            ValueRef::F64(n) => ValueModel::F64(n),
            ValueRef::String(s) => ValueModel::Text(s@),
            ValueRef::Bytes(b) => ValueModel::Bytes(b@),
            ValueRef::EnumNumber(n) => ValueModel::EnumNumber(n),
            ValueRef::Message(m) => ValueModel::Message(m@),
            ValueRef::List(l) => ValueModel::List(items_view(l@)),
            ValueRef::Mapping(e) => ValueModel::Mapping(entries_view(e@)),
        }
    }
}

impl Value {
    /// The value by reference.
    pub fn as_value_ref(&self) -> (r: ValueRef<'_>)
        ensures
            r@ == self@,
    {
        match self {
            Value::Bool(b) => ValueRef::Bool(*b),
            Value::I32(n) => ValueRef::I32(*n),
            Value::I64(n) => ValueRef::I64(*n),
            Value::U32(n) => ValueRef::U32(*n),
            Value::U64(n) => ValueRef::U64(*n),
            Value::F32(n) => ValueRef::F32(*n),
            Value::F64(n) => ValueRef::F64(*n),
            Value::String(s) => ValueRef::String(s.as_str()),
            Value::Bytes(b) => ValueRef::Bytes(b.as_slice()),
            Value::EnumNumber(n) => ValueRef::EnumNumber(*n),
            Value::Message(m) => ValueRef::Message(ReflectCow::Borrowed(m)),
            Value::List(l) => ValueRef::List(l.as_slice()),
            Value::Mapping(m) => ValueRef::Mapping(m.entries()),
        }
    }
}

// ── Defaults ────────────────────────────────────────────────────────────────

/// What a field of the kind reads as where it is not set.
pub open spec fn kind_default(kind: FieldKind, pool: DescriptorPool) -> ValueModel {
    match kind {
        FieldKind::Singular(k) => element_default(k, pool),
        FieldKind::List(_) => ValueModel::List(Seq::empty()),
        FieldKind::Mapping { key, value } => ValueModel::Mapping(Seq::empty()),
    }
}

/// What a field reads as: its value, or its default where it is not set.
pub open spec fn field_value(m: MessageModel, field: FieldDescriptor) -> ValueModel {
    match field_get(m.fields, field.number) {
        Some(v) => v,
        None => kind_default(field.kind, m.pool),
    }
}

/// The default of a scalar type, by reference.
pub fn default_scalar_ref(s: ScalarType) -> (r: ValueRef<'static>)
    ensures
        r@ == scalar_default(s),
{
    match s {
        ScalarType::Double => ValueRef::F64(0),
        ScalarType::Float => ValueRef::F32(0),
        ScalarType::Int64 | ScalarType::Sfixed64 | ScalarType::Sint64 => ValueRef::I64(0),
        ScalarType::Uint64 | ScalarType::Fixed64 => ValueRef::U64(0),
        ScalarType::Int32 | ScalarType::Sfixed32 | ScalarType::Sint32 => ValueRef::I32(0),
        ScalarType::Uint32 | ScalarType::Fixed32 => ValueRef::U32(0),
        ScalarType::Bool => ValueRef::Bool(false),
        ScalarType::String => {
            proof {
                reveal_strlit("");
                assert(""@ =~= Seq::<char>::empty());
            }
            ValueRef::String("")
        },
        ScalarType::Bytes => {
            let none: &'static [u8] = &[];
            assert(none@ =~= Seq::<u8>::empty());
            ValueRef::Bytes(none)
        },
    }
}

/// What a field of the kind reads as where it is not set, by reference.
pub fn default_value_ref(kind: FieldKind, pool: &Arc<DescriptorPool>) -> (r: ValueRef<'static>)
    requires
        kind_linked(**pool, kind),
    ensures
        r@ == kind_default(kind, **pool),
{
    match kind {
        FieldKind::Singular(SingularKind::Scalar(s)) => default_scalar_ref(s),
        FieldKind::Singular(SingularKind::Enum(_)) => ValueRef::EnumNumber(0),
        FieldKind::Singular(SingularKind::Message(i)) => {
            let ty = MessageType::new(share_pool(pool), i);
            ValueRef::Message(ReflectCow::Owned(Box::new(DynamicMessage::of_type(ty))))
        },
        FieldKind::List(_) => {
            let none: &'static [Value] = &[];
            assert(items_view(none@) =~= Seq::<ValueModel>::empty());
            ValueRef::List(none)
        },
        FieldKind::Mapping { key, value } => {
            let none: &'static [(MapKey, Value)] = &[];
            assert(entries_view(none@) =~= Seq::empty());
            ValueRef::Mapping(none)
        },
    }
}

// ── Reading and writing ─────────────────────────────────────────────────────

/// The field is set: a list or a map that is not empty, or a value that is
/// there and, for a field that does not track presence, is not the default.
pub open spec fn has_field(m: MessageModel, field: FieldDescriptor) -> bool {
    match field_get(m.fields, field.number) {
        None => false,
        Some(ValueModel::List(l)) => l.len() > 0,
        Some(ValueModel::Mapping(e)) => e.len() > 0,
        Some(v) => field.presence != FieldPresence::Implicit || !is_default(v),
    }
}

/// The message with the field set to `v`, its oneof siblings cleared; or why
/// not.
pub open spec fn set_field(m: MessageModel, field: FieldDescriptor, v: ValueModel) -> Result<
    MessageModel,
    ReflectErrorModel,
> {
    if !is_member(m, field) {
        Err(ReflectErrorModel::FieldNotMember { message: full_name(m), field: field.name@ })
    } else {
        let f = field_of(m.pool, m.index, field.number)->Some_0;
        match adopted(f.kind, v, m.pool) {
            Err(e) => Err(
                ReflectErrorModel::WrongValueKind {
                    message: full_name(m),
                    field: field.name@,
                    expected: e.expected,
                    actual: e.actual,
                },
            ),
            Ok(x) => Ok(with_field(clear_oneof(m, f.oneof_index, field.number), field.number, x)),
        }
    }
}

/// The message with the field cleared; or why not.
pub open spec fn clear_field(m: MessageModel, field: FieldDescriptor) -> Result<
    MessageModel,
    ReflectErrorModel,
> {
    if !is_member(m, field) {
        Err(ReflectErrorModel::FieldNotMember { message: full_name(m), field: field.name@ })
    } else {
        Ok(without_field(m, field.number))
    }
}

/// `m` and `r` are what `expected` makes of `before`.
pub open spec fn changes(
    before: MessageModel,
    m: MessageModel,
    r: Result<(), ReflectError>,
    expected: Result<MessageModel, ReflectErrorModel>,
) -> bool {
    match expected {
        Ok(x) => r is Ok && m == x,
        Err(e) => r is Err && r->Err_0@ == e && m == before,
    }
}

/// The fields of `m`, from the `i`-th on, that are set and have a descriptor,
/// each with its value.
pub open spec fn set_fields(m: MessageModel, i: nat) -> Seq<(FieldDescriptor, ValueModel)>
    decreases m.fields.len() - i,
{
    if i >= m.fields.len() {
        Seq::empty()
    } else {
        let more = set_fields(m, i + 1);
        match field_of(m.pool, m.index, m.fields[i as int].0) {
            Some(fd) => if has_field(m, fd) {
                seq![(fd, m.fields[i as int].1)] + more
            } else {
                more
            },
            None => more,
        }
    }
}

/// What references to fields and values stand for.
pub open spec fn refs_view(s: Seq<(&FieldDescriptor, &Value)>) -> Seq<
    (FieldDescriptor, ValueModel),
> {
    Seq::new(s.len(), |i: int| (*s[i].0, s[i].1@))
}

impl DynamicMessage {
    /// Whether the descriptor is the message's own.
    pub fn field_descriptor_is_member(&self, field: &FieldDescriptor) -> (r: bool)
        ensures
            r == is_member(self@, *field),
    {
        match self.field_or_extension(field.number) {
            Some(f) => is_same_field(f, field),
            None => false,
        }
    }

    fn validate_field_descriptor(&self, field: &FieldDescriptor) -> (r: Result<(), ReflectError>)
        ensures
            is_member(self@, *field) ==> r is Ok,
            !is_member(self@, *field) ==> r is Err && r->Err_0@ == (
            ReflectErrorModel::FieldNotMember { message: full_name(self@), field: field.name@ }),
    {
        if self.field_descriptor_is_member(field) {
            Ok(())
        } else {
            Err(
                ReflectError::FieldNotMember {
                    message: self.message_descriptor().full_name.clone(),
                    field: field.name.clone(),
                },
            )
        }
    }

    /// Reads a field: its value, or its default where it is not set.
    pub fn get(&self, field: &FieldDescriptor) -> (r: ValueRef<'_>)
        requires
            is_member(self@, *field),
        ensures
            r@ == field_value(
                self@,
                field_of(self@.pool, self@.index, field.number)->Some_0,
            ),
    {
        let kind = match self.field_or_extension(field.number) {
            Some(f) => f.kind,
            None => field.kind,
        };
        match self.field_by_number(field.number) {
            Some(v) => v.as_value_ref(),
            None => default_value_ref(kind, self.pool()),
        }
    }

    /// Whether a field is set.
    pub fn has(&self, field: &FieldDescriptor) -> (r: bool)
        requires
            is_member(self@, *field),
        ensures
            r == has_field(self@, field_of(self@.pool, self@.index, field.number)->Some_0),
    {
        match self.field_or_extension(field.number) {
            Some(f) => self.has_value(f),
            None => false,
        }
    }

    /// Whether the field of that number is set, with the presence that `field`
    /// says.
    pub(crate) fn has_value(&self, field: &FieldDescriptor) -> (r: bool)
        ensures
            r == has_field(self@, *field),
    {
        match self.field_by_number(field.number) {
            None => false,
            Some(Value::List(l)) => l.len() > 0,
            Some(Value::Mapping(m)) => !m.is_empty(),
            Some(v) => field.presence != FieldPresence::Implicit || !is_default_scalar(v),
        }
    }

    /// The fields that are set, extensions among them, in the order of their
    /// numbers.
    pub fn for_each_set(&self) -> (r: Vec<(&FieldDescriptor, &Value)>)
        ensures
            refs_view(r@) == set_fields(self@, 0),
    {
        let mut out: Vec<(&FieldDescriptor, &Value)> = Vec::new();
        let mut i: usize = 0;
        assert(refs_view(out@) + set_fields(self@, 0) =~= set_fields(self@, 0));
        while i < self.field_count()
            invariant
                i <= self@.fields.len(),
                refs_view(out@) + set_fields(self@, i as nat) == set_fields(self@, 0),
            decreases self@.fields.len() - i,
        {
            let (number, value) = self.field_entry(i);
            let ghost was = out@;
            let ghost more = set_fields(self@, (i + 1) as nat);
            if let Some(fd) = self.field_or_extension(number) {
                if self.has_value(fd) {
                    out.push((fd, value));
                    assert(refs_view(out@) =~= refs_view(was).push((*fd, value@)));
                    assert(refs_view(was) + (seq![(*fd, value@)] + more) =~= refs_view(out@)
                        + more);
                }
            }
            i = i + 1;
        }
        assert(refs_view(out@) + Seq::<(FieldDescriptor, ValueModel)>::empty() =~= refs_view(out@));
        out
    }

    /// Mutably borrows a field's value, if present.
    ///
    /// A value of another shape than the field's kind may be written through
    /// the reference; encoding leaves such a field out.
    pub fn field_mut(&mut self, field: &FieldDescriptor) -> (r: Option<&mut Value>)
        requires
            is_member(old(self)@, *field),
        ensures
            match field_get(old(self)@.fields, field.number) {
                Some(v) => r matches Some(x) && x@ == v && final(self)@ == (MessageModel {
                    fields: field_replace(old(self)@.fields, field.number, final(x)@),
                    ..old(self)@
                }),
                None => r is None && final(self)@ == old(self)@,
            },
    {
        self.field_by_number_mut(field.number)
    }

    /// Sets a field, and clears its oneof siblings.
    ///
    /// A message of another pool is rebuilt in this message's pool, if it has
    /// the full name that the field asks for.
    pub fn try_set(&mut self, field: &FieldDescriptor, value: Value) -> (r: Result<
        (),
        ReflectError,
    >)
        ensures
            changes(old(self)@, final(self)@, r, set_field(old(self)@, *field, value@)),
    {
        if let Err(e) = self.validate_field_descriptor(field) {
            return Err(e);
        }
        let (kind, oneof_index) = match self.field_or_extension(field.number) {
            Some(f) => (f.kind, f.oneof_index),
            None => (field.kind, field.oneof_index),
        };
        let adopted = match adopt_value(kind, value, self.pool()) {
            Ok(v) => v,
            Err(e) => {
                return Err(
                    ReflectError::WrongValueKind {
                        message: self.message_descriptor().full_name.clone(),
                        field: field.name.clone(),
                        expected: e.expected,
                        actual: e.actual,
                    },
                );
            },
        };
        self.clear_other_oneof_members(oneof_index, field.number);
        self.insert_value(field.number, adopted);
        Ok(())
    }

    /// Sets a field that can be set to the value.
    pub fn set(&mut self, field: &FieldDescriptor, value: Value)
        requires
            set_field(old(self)@, *field, value@) is Ok,
        ensures
            final(self)@ == set_field(old(self)@, *field, value@)->Ok_0,
    {
        let _ = self.try_set(field, value);
    }

    /// Clears a field.
    pub fn try_clear(&mut self, field: &FieldDescriptor) -> (r: Result<(), ReflectError>)
        ensures
            changes(old(self)@, final(self)@, r, clear_field(old(self)@, *field)),
    {
        if let Err(e) = self.validate_field_descriptor(field) {
            return Err(e);
        }
        let _ = self.remove_value(field.number);
        Ok(())
    }

    /// Clears a field of the message.
    pub fn clear(&mut self, field: &FieldDescriptor)
        requires
            is_member(old(self)@, *field),
        ensures
            final(self)@ == without_field(old(self)@, field.number),
    {
        let _ = self.try_clear(field);
    }
}

} // verus!
