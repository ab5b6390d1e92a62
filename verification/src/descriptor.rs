//! Schemas: message, field, enum and extension descriptors, and the pool that
//! links them.
use std::sync::atomic::AtomicBool;
use std::sync::Arc;
use vstd::prelude::*;
use crate::text::same_text;
use crate::wire::MAX_FIELD_NUMBER;

verus! {

/// Names a message of a pool.
#[derive(Clone, Copy, Debug, PartialEq, Eq, Structural)]
pub struct MessageIndex(pub usize);

/// Names an enum of a pool.
#[derive(Clone, Copy, Debug, PartialEq, Eq, Structural)]
pub struct EnumIndex(pub usize);

/// The scalar types of the schema language.
#[derive(Clone, Copy, Debug, PartialEq, Eq, Structural)]
pub enum ScalarType {
    Double,
    Float,
    Int64,
    Uint64,
    Int32,
    Fixed64,
    Fixed32,
    Bool,
    String,
    Bytes,
    Uint32,
    Sfixed32,
    Sfixed64,
    Sint32,
    Sint64,
}

/// What one element of a field is.
#[derive(Clone, Copy, Debug, PartialEq, Eq, Structural)]
pub enum SingularKind {
    Scalar(ScalarType),
    Enum(EnumIndex),
    Message(MessageIndex),
}

/// What a field holds: one element, a list of them, or a map to them.
#[derive(Clone, Copy, Debug, PartialEq, Eq, Structural)]
pub enum FieldKind {
    Singular(SingularKind),
    List(SingularKind),
    Mapping { key: ScalarType, value: SingularKind },
}

/// Whether numbers outside the declared ones are values of an enum.
#[derive(Clone, Copy, Debug, PartialEq, Eq, Structural)]
pub enum EnumType {
    Open,
    Closed,
}

/// Whether a field that holds its default counts as set.
#[derive(Clone, Copy, Debug, PartialEq, Eq, Structural)]
pub enum FieldPresence {
    Explicit,
    Implicit,
    LegacyRequired,
}

/// What makes the value that holds it one of a kind: a cell of its own.
///
/// Nothing is ever written to the cell or read from it. To the verifier a cell
/// is not what it holds but which cell it is, so two values that hold identities
/// are equal only where they are one value. That `new` never gives the same
/// cell twice is not stated; there is no way to copy one.
#[derive(Debug)]
pub struct Identity {
    cell: AtomicBool,
}

impl Identity {
    /// An identity that no other value has.
    pub fn new() -> (r: Self) {
        Identity { cell: AtomicBool::new(false) }
    }
}

/// A field of a message, or an extension seen as one.
#[derive(Debug)]
pub struct FieldDescriptor {
    /// Tells the descriptor from others like it.
    pub identity: Identity,
    pub number: u32,
    pub name: String,
    /// The field's key in JSON objects.
    pub json_name: String,
    pub kind: FieldKind,
    pub presence: FieldPresence,
    /// The position of the field's oneof among the message's oneofs.
    pub oneof_index: Option<u16>,
    /// Messages are written as groups.
    pub delimited: bool,
    /// Lists of packable elements are written packed.
    pub packed: bool,
    /// What the field says of its enum, where it says anything.
    pub enum_type: Option<EnumType>,
    /// The value is left out of debug output.
    pub debug_redact: bool,
}

/// A group of fields of which at most one is set.
#[derive(Debug)]
pub struct OneofDescriptor {
    pub name: String,
    /// Positions of the members among the message's fields.
    pub field_indices: Vec<u16>,
}

/// A message type.
#[derive(Debug)]
pub struct MessageDescriptor {
    pub full_name: String,
    pub fields: Vec<FieldDescriptor>,
    pub oneofs: Vec<OneofDescriptor>,
    /// Ranges of extension numbers, the first of each in, the last out.
    pub extension_ranges: Vec<(u32, u32)>,
}

/// A named number of an enum.
#[derive(Debug)]
pub struct EnumValueDescriptor {
    pub name: String,
    pub number: i32,
}

/// An enum type.
#[derive(Debug)]
pub struct EnumDescriptor {
    pub full_name: String,
    pub enum_type: EnumType,
    pub values: Vec<EnumValueDescriptor>,
}

/// An extension: a field that another file adds to a message.
#[derive(Debug)]
pub struct ExtensionDescriptor {
    pub full_name: String,
    pub extendee: MessageIndex,
    pub field: FieldDescriptor,
}

// ── Lookups, as functions of the schema ─────────────────────────────────────

/// The position, from `i` on, of the first field numbered `number`.
pub open spec fn field_at(fields: Seq<FieldDescriptor>, number: u32, i: nat) -> Option<nat>
    decreases fields.len() - i,
{
    if i >= fields.len() {
        None
    } else if fields[i as int].number == number {
        Some(i)
    } else {
        field_at(fields, number, i + 1)
    }
}

/// The position, from `i` on, of the first extension of `extendee` numbered
/// `number`.
pub open spec fn extension_at(
    extensions: Seq<ExtensionDescriptor>,
    extendee: MessageIndex,
    number: u32,
    i: nat,
) -> Option<nat>
    decreases extensions.len() - i,
{
    if i >= extensions.len() {
        None
    } else if extensions[i as int].extendee == extendee && extensions[i as int].field.number
        == number {
        Some(i)
    } else {
        extension_at(extensions, extendee, number, i + 1)
    }
}

/// The position, from `i` on, of the first message named `name`.
pub open spec fn message_at(messages: Seq<MessageDescriptor>, name: Seq<char>, i: nat) -> Option<
    nat,
>
    decreases messages.len() - i,
{
    if i >= messages.len() {
        None
    } else if messages[i as int].full_name@ == name {
        Some(i)
    } else {
        message_at(messages, name, i + 1)
    }
}

/// A position that was found is one.
pub proof fn lemma_message_at(messages: Seq<MessageDescriptor>, name: Seq<char>, i: nat)
    ensures
        message_at(messages, name, i) matches Some(k) ==> i <= k < messages.len()
            && messages[k as int].full_name@ == name,
    decreases messages.len() - i,
{
    if i < messages.len() && messages[i as int].full_name@ != name {
        lemma_message_at(messages, name, i + 1);
    }
}

/// `number` lies in one of the extension ranges.
pub open spec fn in_ranges(ranges: Seq<(u32, u32)>, number: u32) -> bool {
    exists|i: int| 0 <= i < ranges.len() && (#[trigger] ranges[i]).0 <= number < ranges[i].1
}

/// `number` is one of the numbers an enum declares.
pub open spec fn declares(values: Seq<EnumValueDescriptor>, number: i32) -> bool {
    exists|i: int| 0 <= i < values.len() && (#[trigger] values[i]).number == number
}

/// The message or enum that `kind` names is in the pool.
pub open spec fn singular_linked(pool: DescriptorPool, kind: SingularKind) -> bool {
    match kind {
        SingularKind::Scalar(_) => true,
        SingularKind::Enum(e) => e.0 < pool.enum_seq().len(),
        SingularKind::Message(m) => m.0 < pool.message_seq().len(),
    }
}

/// The element that `kind` names is in the pool.
pub open spec fn kind_linked(pool: DescriptorPool, kind: FieldKind) -> bool {
    match kind {
        FieldKind::Singular(k) => singular_linked(pool, k),
        FieldKind::List(k) => singular_linked(pool, k),
        FieldKind::Mapping { key, value } => singular_linked(pool, value),
    }
}

/// The type is one of map keys: floating-point numbers and bytes are none.
pub open spec fn is_key_type(s: ScalarType) -> bool {
    !(s is Double || s is Float || s is Bytes)
}

/// A map of the kind has keys of a type that has keys.
pub open spec fn has_keys(kind: FieldKind) -> bool {
    kind matches FieldKind::Mapping { key, value } ==> is_key_type(key)
}

/// The field has a number that a tag can carry and a kind that is in the pool.
pub open spec fn field_linked(pool: DescriptorPool, f: FieldDescriptor) -> bool {
    &&& 1 <= f.number <= MAX_FIELD_NUMBER
    &&& kind_linked(pool, f.kind)
    &&& has_keys(f.kind)
}

/// No two fields of the message have one number, the members of a oneof are
/// singular fields that name it, and every field that names a oneof is one of
/// its members.
pub open spec fn consistent_message(md: MessageDescriptor) -> bool {
    &&& distinct_numbers(md.fields@)
    &&& forall|o: int, j: int|
        0 <= o < md.oneofs@.len() && 0 <= j < md.oneofs@[o].field_indices@.len()
            ==> names_oneof(md, o, #[trigger] md.oneofs@[o].field_indices@[j])
    &&& forall|k: int|
        0 <= k < md.fields@.len() ==> listed_in_oneof(md, #[trigger] md.fields@[k].oneof_index, k)
}

/// No two fields have one number.
pub open spec fn distinct_numbers(fields: Seq<FieldDescriptor>) -> bool {
    forall|k: int, l: int|
        0 <= k < l < fields.len() ==> (#[trigger] fields[k]).number != (
        #[trigger] fields[l]).number
}

/// The member of a oneof is a singular field that names it.
pub open spec fn names_oneof(md: MessageDescriptor, o: int, k: u16) -> bool {
    k < md.fields@.len() && (md.fields@[k as int].oneof_index matches Some(x) && x == o)
        && md.fields@[k as int].kind is Singular
}

/// The field is a member of the oneof that it names.
pub open spec fn listed_in_oneof(md: MessageDescriptor, oneof: Option<u16>, k: int) -> bool {
    oneof matches Some(o) ==> o < md.oneofs@.len() && exists|j: int|
        0 <= j < md.oneofs@[o as int].field_indices@.len()
            && #[trigger] md.oneofs@[o as int].field_indices@[j] == k
}

/// Every field and every extension is linked, the fields and the oneofs of
/// every message agree, and extensions belong to no oneof.
pub open spec fn pool_linked(pool: DescriptorPool) -> bool {
    &&& forall|i: int|
        0 <= i < pool.message_seq().len() ==> consistent_message(#[trigger] pool.message_seq()[i])
    &&& forall|i: int|
        0 <= i < pool.extension_seq().len() ==> (
        #[trigger] pool.extension_seq()[i]).field.oneof_index is None
    &&& forall|i: int, j: int|
        0 <= i < pool.message_seq().len() && 0 <= j < pool.message_seq()[i].fields@.len()
            ==> field_linked(pool, #[trigger] pool.message_seq()[i].fields@[j])
    &&& forall|i: int|
        0 <= i < pool.extension_seq().len() ==> field_linked(
            pool,
            #[trigger] pool.extension_seq()[i].field,
        )
}

/// The field of the message that `number` names: a declared field or, where
/// none is declared, an extension that the pool holds and a range admits.
pub open spec fn field_of(pool: DescriptorPool, index: MessageIndex, number: u32) -> Option<
    FieldDescriptor,
> {
    let md = pool.message_seq()[index.0 as int];
    match field_at(md.fields@, number, 0) {
        Some(i) => Some(md.fields@[i as int]),
        None => if in_ranges(md.extension_ranges@, number) {
            match extension_at(pool.extension_seq(), index, number, 0) {
                Some(i) => Some(pool.extension_seq()[i as int].field),
                None => None,
            }
        } else {
            None
        },
    }
}

/// Whether `number` is a value of the enum, under what the field says of it
/// or, where the field says nothing, under what the enum says of itself.
pub open spec fn enum_is_closed(
    pool: DescriptorPool,
    e: EnumIndex,
    field_type: Option<EnumType>,
) -> bool {
    match field_type {
        Some(t) => t == EnumType::Closed,
        None => pool.enum_seq()[e.0 as int].enum_type == EnumType::Closed,
    }
}

/// Whether `number` is a value of the enum: any number is one of an open enum,
/// a declared one of a closed enum.
pub open spec fn enum_knows(
    pool: DescriptorPool,
    e: EnumIndex,
    field_type: Option<EnumType>,
    number: i32,
) -> bool {
    !enum_is_closed(pool, e, field_type) || declares(pool.enum_seq()[e.0 as int].values@, number)
}

/// A linked set of descriptors. Two pools are equal only where they are one
/// pool, however alike they are.
#[derive(Debug)]
pub struct DescriptorPool {
    identity: Identity,
    messages: Vec<MessageDescriptor>,
    enums: Vec<EnumDescriptor>,
    extensions: Vec<ExtensionDescriptor>,
}

impl DescriptorPool {
    pub closed spec fn message_seq(self) -> Seq<MessageDescriptor> {
        self.messages@
    }

    pub closed spec fn enum_seq(self) -> Seq<EnumDescriptor> {
        self.enums@
    }

    pub closed spec fn extension_seq(self) -> Seq<ExtensionDescriptor> {
        self.extensions@
    }

    #[verifier::type_invariant]
    spec fn linked(self) -> bool {
        pool_linked(self)
    }

    /// Links descriptors into a pool. `None` where a field has a number that a
    /// tag cannot carry, or names a message or an enum that is not there, or is
    /// a map with keys of a type that has none; where two fields of a message
    /// have one number, or its fields and its oneofs do not agree; or where an
    /// extension belongs to a oneof.
    pub fn link(
        messages: Vec<MessageDescriptor>,
        enums: Vec<EnumDescriptor>,
        extensions: Vec<ExtensionDescriptor>,
    ) -> (r: Option<Self>)
        ensures
            r is Some <==> pool_admitted(messages@, enums@.len(), extensions@),
            r matches Some(p) ==> {
                &&& p.message_seq() == messages@
                &&& p.enum_seq() == enums@
                &&& p.extension_seq() == extensions@
                &&& pool_linked(p)
            },
    {
        let mut i: usize = 0;
        while i < messages.len()
            invariant
                i <= messages@.len(),
                forall|k: int|
                    0 <= k < i ==> message_admitted(
                        messages@.len(),
                        enums@.len(),
                        #[trigger] messages@[k],
                    ),
            decreases messages@.len() - i,
        {
            if !admit_message(messages.len(), enums.len(), &messages[i]) {
                assert(!message_admitted(messages@.len(), enums@.len(), messages@[i as int]));
                return None;
            }
            i = i + 1;
        }
        let mut i: usize = 0;
        while i < extensions.len()
            invariant
                i <= extensions@.len(),
                forall|k: int|
                    0 <= k < i ==> extension_admitted(
                        messages@.len(),
                        enums@.len(),
                        #[trigger] extensions@[k],
                    ),
            decreases extensions@.len() - i,
        {
            let e = &extensions[i];
            if e.field.oneof_index.is_some() || !admit_field(
                messages.len(),
                enums.len(),
                &e.field,
            ) {
                assert(!extension_admitted(messages@.len(), enums@.len(), extensions@[i as int]));
                return None;
            }
            i = i + 1;
        }
        let identity = Identity::new();
        proof {
            let p = DescriptorPool { identity, messages, enums, extensions };
            assert forall|i: int, j: int|
                0 <= i < p.message_seq().len() && 0 <= j
                    < p.message_seq()[i].fields@.len() implies field_linked(
                p,
                #[trigger] p.message_seq()[i].fields@[j],
            ) by {
                assert(message_admitted(messages@.len(), enums@.len(), messages@[i]));
                assert(field_admitted(messages@.len(), enums@.len(), messages@[i].fields@[j]));
            }
            assert forall|i: int| 0 <= i < p.message_seq().len() implies consistent_message(
                #[trigger] p.message_seq()[i],
            ) by {
                assert(message_admitted(messages@.len(), enums@.len(), messages@[i]));
            }
            assert forall|i: int| 0 <= i < p.extension_seq().len() implies (
            #[trigger] p.extension_seq()[i]).field.oneof_index is None && field_linked(
                p,
                p.extension_seq()[i].field,
            ) by {
                assert(extension_admitted(messages@.len(), enums@.len(), extensions@[i]));
            }
        }
        Some(DescriptorPool { identity, messages, enums, extensions })
    }

    /// The number of messages: an index below it names one.
    pub fn message_count(&self) -> (r: usize)
        ensures
            r == self.message_seq().len(),
    {
        self.messages.len()
    }

    /// The message at `index`.
    pub fn message(&self, index: MessageIndex) -> (r: &MessageDescriptor)
        requires
            index.0 < self.message_seq().len(),
        ensures
            *r == self.message_seq()[index.0 as int],
            forall|j: int|
                0 <= j < r.fields@.len() ==> field_linked(*self, #[trigger] r.fields@[j]),
    {
        proof {
            use_type_invariant(self);
            assert(forall|j: int|
                0 <= j < self.messages@[index.0 as int].fields@.len() ==> field_linked(
                    *self,
                    #[trigger] self.message_seq()[index.0 as int].fields@[j],
                ));
        }
        &self.messages[index.0]
    }

    /// The enum at `index`.
    pub fn enumeration(&self, index: EnumIndex) -> (r: &EnumDescriptor)
        requires
            index.0 < self.enum_seq().len(),
        ensures
            *r == self.enum_seq()[index.0 as int],
    {
        &self.enums[index.0]
    }

    /// The index of the message named `full_name`.
    pub fn message_index(&self, full_name: &str) -> (r: Option<MessageIndex>)
        ensures
            r == index_of(*self, full_name@),
            r matches Some(m) ==> m.0 < self.message_seq().len()
                && self.message_seq()[m.0 as int].full_name@ == full_name@,
    {
        let mut i: usize = 0;
        while i < self.messages.len()
            invariant
                i <= self.messages@.len(),
                message_at(self.messages@, full_name@, 0) == message_at(
                    self.messages@,
                    full_name@,
                    i as nat,
                ),
            decreases self.messages@.len() - i,
        {
            if same_text(self.messages[i].full_name.as_str(), full_name) {
                return Some(MessageIndex(i));
            }
            i = i + 1;
        }
        None
    }

    /// The field of the message that `number` names: a declared field or an
    /// extension.
    pub fn field_or_extension(&self, index: MessageIndex, number: u32) -> (r: Option<
        &FieldDescriptor,
    >)
        requires
            index.0 < self.message_seq().len(),
        ensures
            match field_of(*self, index, number) {
                Some(f) => r is Some && *r->0 == f,
                None => r is None,
            },
            r matches Some(f) ==> f.number == number && field_linked(*self, *f),
    {
        proof {
            use_type_invariant(self);
        }
        let md = self.message(index);
        if let Some(f) = md.field(number) {
            return Some(f);
        }
        if !md.in_extension_range(number) {
            return None;
        }
        let mut i: usize = 0;
        while i < self.extensions.len()
            invariant
                pool_linked(*self),
                i <= self.extensions@.len(),
                field_of(*self, index, number) == (match extension_at(
                    self.extension_seq(),
                    index,
                    number,
                    i as nat,
                ) {
                    Some(k) => Some(self.extension_seq()[k as int].field),
                    None => None,
                }),
            decreases self.extensions@.len() - i,
        {
            let e = &self.extensions[i];
            if e.extendee == index && e.field.number == number {
                assert(*e == self.extension_seq()[i as int]);
                assert(field_linked(*self, self.extension_seq()[i as int].field));
                return Some(&e.field);
            }
            i = i + 1;
        }
        None
    }

    /// Whether the enum is closed for a field that says `field_type` of it.
    pub fn enum_closed(&self, e: EnumIndex, field_type: Option<EnumType>) -> (r: bool)
        requires
            e.0 < self.enum_seq().len(),
        ensures
            r == enum_is_closed(*self, e, field_type),
    {
        match field_type {
            Some(t) => t == EnumType::Closed,
            None => self.enums[e.0].enum_type == EnumType::Closed,
        }
    }
}

/// The index of the message named `name` in the pool.
pub open spec fn index_of(pool: DescriptorPool, name: Seq<char>) -> Option<MessageIndex> {
    match message_at(pool.message_seq(), name, 0) {
        Some(i) => Some(MessageIndex(i as usize)),
        None => None,
    }
}

/// `kind` names a message or an enum below the given counts.
pub open spec fn singular_admitted(messages: nat, enums: nat, kind: SingularKind) -> bool {
    match kind {
        SingularKind::Scalar(_) => true,
        SingularKind::Enum(e) => e.0 < enums,
        SingularKind::Message(m) => m.0 < messages,
    }
}

/// The field can be linked in a pool of so many messages and enums.
pub open spec fn field_admitted(messages: nat, enums: nat, f: FieldDescriptor) -> bool {
    &&& 1 <= f.number <= MAX_FIELD_NUMBER
    &&& match f.kind {
        FieldKind::Singular(k) => singular_admitted(messages, enums, k),
        FieldKind::List(k) => singular_admitted(messages, enums, k),
        FieldKind::Mapping { key, value } => is_key_type(key) && singular_admitted(
            messages,
            enums,
            value,
        ),
    }
}

/// The message can be linked in a pool of so many messages and enums.
pub open spec fn message_admitted(messages: nat, enums: nat, md: MessageDescriptor) -> bool {
    &&& forall|j: int|
        0 <= j < md.fields@.len() ==> field_admitted(messages, enums, #[trigger] md.fields@[j])
    &&& consistent_message(md)
}

/// The extension can be linked in a pool of so many messages and enums.
pub open spec fn extension_admitted(messages: nat, enums: nat, e: ExtensionDescriptor) -> bool {
    field_admitted(messages, enums, e.field) && e.field.oneof_index is None
}

/// The descriptors can be linked.
pub open spec fn pool_admitted(
    messages: Seq<MessageDescriptor>,
    enums: nat,
    extensions: Seq<ExtensionDescriptor>,
) -> bool {
    &&& forall|i: int|
        0 <= i < messages.len() ==> message_admitted(
            messages.len(),
            enums,
            #[trigger] messages[i],
        )
    &&& forall|i: int|
        0 <= i < extensions.len() ==> extension_admitted(
            messages.len(),
            enums,
            #[trigger] extensions[i],
        )
}

fn admit_field(messages: usize, enums: usize, f: &FieldDescriptor) -> (r: bool)
    ensures
        r == field_admitted(messages as nat, enums as nat, *f),
{
    let kind = match f.kind {
        FieldKind::Singular(k) => k,
        FieldKind::List(k) => k,
        FieldKind::Mapping { key, value } => value,
    };
    let element = match kind {
        SingularKind::Scalar(_) => true,
        SingularKind::Enum(e) => e.0 < enums,
        SingularKind::Message(m) => m.0 < messages,
    };
    let keys = match f.kind {
        FieldKind::Mapping { key: ScalarType::Double, value } => false,
        FieldKind::Mapping { key: ScalarType::Float, value } => false,
        FieldKind::Mapping { key: ScalarType::Bytes, value } => false,
        _ => true,
    };
    1 <= f.number && f.number <= MAX_FIELD_NUMBER && element && keys
}

fn numbers_distinct(fields: &Vec<FieldDescriptor>) -> (r: bool)
    ensures
        r == distinct_numbers(fields@),
{
    let mut k: usize = 0;
    while k < fields.len()
        invariant
            k <= fields@.len(),
            forall|a: int, b: int|
                0 <= a < b < fields@.len() && a < k ==> (#[trigger] fields@[a]).number != (
                #[trigger] fields@[b]).number,
        decreases fields@.len() - k,
    {
        let mut l: usize = k + 1;
        while l < fields.len()
            invariant
                k < fields@.len(),
                k < l <= fields@.len(),
                forall|b: int|
                    k < b < l ==> fields@[k as int].number != (#[trigger] fields@[b]).number,
            decreases fields@.len() - l,
        {
            if fields[k].number == fields[l].number {
                assert(fields@[k as int].number == fields@[l as int].number);
                return false;
            }
            l = l + 1;
        }
        k = k + 1;
    }
    true
}

fn members_agree(md: &MessageDescriptor) -> (r: bool)
    ensures
        r == (forall|o: int, j: int|
            0 <= o < md.oneofs@.len() && 0 <= j < md.oneofs@[o].field_indices@.len()
                ==> names_oneof(*md, o, #[trigger] md.oneofs@[o].field_indices@[j])),
{
    let mut o: usize = 0;
    while o < md.oneofs.len()
        invariant
            o <= md.oneofs@.len(),
            forall|a: int, j: int|
                0 <= a < o && 0 <= j < md.oneofs@[a].field_indices@.len() ==> names_oneof(
                    *md,
                    a,
                    #[trigger] md.oneofs@[a].field_indices@[j],
                ),
        decreases md.oneofs@.len() - o,
    {
        let members = &md.oneofs[o].field_indices;
        let mut j: usize = 0;
        while j < members.len()
            invariant
                o < md.oneofs@.len(),
                members@ == md.oneofs@[o as int].field_indices@,
                j <= members@.len(),
                forall|l: int|
                    0 <= l < j ==> names_oneof(
                        *md,
                        o as int,
                        #[trigger] md.oneofs@[o as int].field_indices@[l],
                    ),
            decreases members@.len() - j,
        {
            let k: usize = members[j] as usize;
            let mut agrees = false;
            if k < md.fields.len() {
                if let FieldKind::Singular(_) = md.fields[k].kind {
                    if let Some(x) = md.fields[k].oneof_index {
                        agrees = x as usize == o;
                    }
                }
            }
            if !agrees {
                assert(!names_oneof(
                    *md,
                    o as int,
                    md.oneofs@[o as int].field_indices@[j as int],
                ));
                return false;
            }
            j = j + 1;
        }
        o = o + 1;
    }
    true
}

fn is_listed(md: &MessageDescriptor, oneof: Option<u16>, k: usize) -> (r: bool)
    ensures
        r == listed_in_oneof(*md, oneof, k as int),
{
    let o: usize = match oneof {
        Some(o) => o as usize,
        None => return true,
    };
    if o >= md.oneofs.len() {
        return false;
    }
    let members = &md.oneofs[o].field_indices;
    let mut j: usize = 0;
    while j < members.len()
        invariant
            oneof matches Some(x) && x == o,
            o < md.oneofs@.len(),
            members@ == md.oneofs@[o as int].field_indices@,
            j <= members@.len(),
            forall|l: int| 0 <= l < j ==> #[trigger] md.oneofs@[o as int].field_indices@[l] != k,
        decreases members@.len() - j,
    {
        if members[j] as usize == k {
            assert(md.oneofs@[o as int].field_indices@[j as int] == k);
            return true;
        }
        j = j + 1;
    }
    false
}

fn admit_message(messages: usize, enums: usize, md: &MessageDescriptor) -> (r: bool)
    ensures
        r == message_admitted(messages as nat, enums as nat, *md),
{
    if !numbers_distinct(&md.fields) || !members_agree(md) {
        return false;
    }
    let mut k: usize = 0;
    while k < md.fields.len()
        invariant
            k <= md.fields@.len(),
            forall|l: int|
                0 <= l < k ==> field_admitted(
                    messages as nat,
                    enums as nat,
                    #[trigger] md.fields@[l],
                ),
            forall|l: int|
                0 <= l < k ==> listed_in_oneof(*md, #[trigger] md.fields@[l].oneof_index, l),
        decreases md.fields@.len() - k,
    {
        let f = &md.fields[k];
        if !admit_field(messages, enums, f) {
            assert(!field_admitted(messages as nat, enums as nat, md.fields@[k as int]));
            return false;
        }
        if !is_listed(md, f.oneof_index, k) {
            assert(!listed_in_oneof(*md, md.fields@[k as int].oneof_index, k as int));
            return false;
        }
        k = k + 1;
    }
    true
}

impl MessageDescriptor {
    /// The declared field numbered `number`.
    pub fn field(&self, number: u32) -> (r: Option<&FieldDescriptor>)
        ensures
            match field_at(self.fields@, number, 0) {
                Some(i) => i < self.fields@.len() && r is Some && *r->0 == self.fields@[i as int]
                    && r->0.number == number,
                None => r is None,
            },
    {
        let mut i: usize = 0;
        while i < self.fields.len()
            invariant
                i <= self.fields@.len(),
                field_at(self.fields@, number, 0) == field_at(self.fields@, number, i as nat),
            decreases self.fields@.len() - i,
        {
            if self.fields[i].number == number {
                return Some(&self.fields[i]);
            }
            i = i + 1;
        }
        None
    }

    /// Whether `number` lies in one of the extension ranges.
    pub fn in_extension_range(&self, number: u32) -> (r: bool)
        ensures
            r == in_ranges(self.extension_ranges@, number),
    {
        let mut i: usize = 0;
        while i < self.extension_ranges.len()
            invariant
                i <= self.extension_ranges@.len(),
                forall|k: int|
                    0 <= k < i ==> !((#[trigger] self.extension_ranges@[k]).0 <= number
                        < self.extension_ranges@[k].1),
            decreases self.extension_ranges@.len() - i,
        {
            if self.extension_ranges[i].0 <= number && number < self.extension_ranges[i].1 {
                return true;
            }
            i = i + 1;
        }
        false
    }
}

impl EnumDescriptor {
    /// Whether the enum declares `number`.
    pub fn declares_number(&self, number: i32) -> (r: bool)
        ensures
            r == declares(self.values@, number),
    {
        let mut i: usize = 0;
        while i < self.values.len()
            invariant
                i <= self.values@.len(),
                forall|k: int| 0 <= k < i ==> (#[trigger] self.values@[k]).number != number,
            decreases self.values@.len() - i,
        {
            if self.values[i].number == number {
                return true;
            }
            i = i + 1;
        }
        false
    }
}

/// A field that a message has by `field_of` carries the number asked for, and
/// in a linked pool it is linked.
pub proof fn lemma_field_of(pool: DescriptorPool, index: MessageIndex, number: u32)
    requires
        pool_linked(pool),
        index.0 < pool.message_seq().len(),
    ensures
        field_of(pool, index, number) matches Some(f) ==> f.number == number && field_linked(
            pool,
            f,
        ),
{
    let md = pool.message_seq()[index.0 as int];
    lemma_field_at(md.fields@, number, 0);
    lemma_extension_at(pool.extension_seq(), index, number, 0);
    if let Some(i) = field_at(md.fields@, number, 0) {
        assert(field_linked(pool, pool.message_seq()[index.0 as int].fields@[i as int]));
    }
}

pub proof fn lemma_field_at(fields: Seq<FieldDescriptor>, number: u32, i: nat)
    ensures
        field_at(fields, number, i) matches Some(k) ==> i <= k < fields.len()
            && fields[k as int].number == number,
    decreases fields.len() - i,
{
    if i < fields.len() && fields[i as int].number != number {
        lemma_field_at(fields, number, i + 1);
    }
}

proof fn lemma_extension_at(
    extensions: Seq<ExtensionDescriptor>,
    extendee: MessageIndex,
    number: u32,
    i: nat,
)
    ensures
        extension_at(extensions, extendee, number, i) matches Some(k) ==> i <= k < extensions.len()
            && extensions[k as int].field.number == number,
    decreases extensions.len() - i,
{
    if i < extensions.len() {
        lemma_extension_at(extensions, extendee, number, i + 1);
    }
}

/// A message type: a pool and the index of one of its messages.
#[derive(Debug)]
pub struct MessageType {
    pool: Arc<DescriptorPool>,
    index: MessageIndex,
}

impl MessageType {
    pub closed spec fn of_pool(self) -> DescriptorPool {
        *self.pool
    }

    pub closed spec fn at_index(self) -> MessageIndex {
        self.index
    }

    #[verifier::type_invariant]
    spec fn in_pool(self) -> bool {
        self.index.0 < self.pool.message_seq().len()
    }

    /// The message of the pool at `index`.
    pub fn new(pool: Arc<DescriptorPool>, index: MessageIndex) -> (r: Self)
        requires
            index.0 < pool.message_seq().len(),
        ensures
            r.of_pool() == *pool,
            r.at_index() == index,
    {
        MessageType { pool, index }
    }

    /// The pool.
    pub fn pool(&self) -> (r: &Arc<DescriptorPool>)
        ensures
            **r == self.of_pool(),
            self.at_index().0 < r.message_seq().len(),
    {
        proof {
            use_type_invariant(self);
        }
        &self.pool
    }

    /// The index of the message.
    pub fn index(&self) -> (r: MessageIndex)
        ensures
            r == self.at_index(),
            r.0 < self.of_pool().message_seq().len(),
    {
        proof {
            use_type_invariant(self);
        }
        self.index
    }

    /// The message.
    pub fn descriptor(&self) -> (r: &MessageDescriptor)
        ensures
            *r == self.of_pool().message_seq()[self.at_index().0 as int],
            forall|j: int|
                0 <= j < r.fields@.len() ==> field_linked(
                    self.of_pool(),
                    #[trigger] r.fields@[j],
                ),
    {
        proof {
            use_type_invariant(self);
        }
        self.pool.message(self.index)
    }

    /// The field that `number` names.
    pub fn field_or_extension(&self, number: u32) -> (r: Option<&FieldDescriptor>)
        ensures
            match field_of(self.of_pool(), self.at_index(), number) {
                Some(f) => r is Some && *r->0 == f,
                None => r is None,
            },
            r matches Some(f) ==> f.number == number && field_linked(self.of_pool(), *f),
    {
        proof {
            use_type_invariant(self);
        }
        self.pool.field_or_extension(self.index, number)
    }

    /// Another handle on the same message type.
    pub fn share(&self) -> (r: Self)
        ensures
            r.of_pool() == self.of_pool(),
            r.at_index() == self.at_index(),
    {
        proof {
            use_type_invariant(self);
        }
        MessageType { pool: share_pool(&self.pool), index: self.index }
    }
}

/// The pool that a handle points to.
pub open spec fn pool_of(pool: &Arc<DescriptorPool>) -> DescriptorPool {
    **pool
}

/// Whether two handles point to one pool.
///
/// Calls `Arc::ptr_eq`, which says whether two pointers are to one allocation.
/// A pool cannot be copied and has an identity, so the pools are equal exactly
/// where they are one.
#[verifier::external_body]
pub(crate) fn is_same_pool(a: &Arc<DescriptorPool>, b: &Arc<DescriptorPool>) -> (r: bool)
    ensures
        r == (*a == *b),
{
    Arc::ptr_eq(a, b)
}

/// Whether two references are to one descriptor.
///
/// Calls `std::ptr::eq`, which says whether two references are to one place. A
/// descriptor cannot be copied and has an identity, so the descriptors are equal
/// exactly where they are one.
#[verifier::external_body]
pub(crate) fn is_same_field(a: &FieldDescriptor, b: &FieldDescriptor) -> (r: bool)
    ensures
        r == (*a == *b),
{
    std::ptr::eq(a, b)
}

/// Another handle on the same pool.
///
/// Calls `Arc::clone`, which gives a second pointer to the value that the
/// first one points to.
#[verifier::external_body]
pub(crate) fn share_pool(pool: &Arc<DescriptorPool>) -> (r: Arc<DescriptorPool>)
    ensures
        r == *pool,
{
    Arc::clone(pool)
}

} // verus!
