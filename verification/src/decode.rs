//! Decoding: merging wire bytes into a message.
use std::sync::Arc;
use vstd::prelude::*;
use crate::descriptor::{
    enum_is_closed, enum_knows, field_of, index_of, share_pool, singular_linked, DescriptorPool,
    EnumIndex, EnumType, FieldKind, MessageIndex, MessageType, ScalarType, SingularKind,
};
use crate::encode::message_bytes;
use crate::merge::{
    add_entry, charge, clear_members, clear_oneof, element_cost, element_default, entry_cost,
    keep_number, keep_unknown, merge_body, merge_closed_list, merge_closed_map, merge_existing,
    merge_field, merge_fields, merge_list, merge_map, merge_message, merge_packed,
    merge_packed_closed, merge_unknown, normal_fields, normal_message, normal_value,
    take_closed_entry, take_element, take_entry, take_packed, Budget, ClosedValue, Left,
};
use crate::scalar::{
    add_len, decode_int32, decode_map_key, decode_scalar, default_map_key, default_scalar_value,
    is_packable, lemma_take_scalar, reads_value, wire_type_compatible,
};
use crate::unknown::{
    coded_tag, lemma_take_payload, push_unknown_bytes, push_unknown_varint, read_unknown_field,
    skip_field, UnknownEntry, UnknownPayload,
};
use crate::value::{
    empty_message, field_get, items_view, lemma_put_put, lemma_put_same, with_field, DynamicMessage,
    KeyModel, MapKey, MessageModel, Value, ValueModel,
};
use crate::wire::{
    lemma_take_delimited, lemma_take_tag, read_delimited, read_tag, take_delimited, take_tag,
    to_wrapped64, DecodeError, Tag, WireType, MAX_FIELD_NUMBER, MAX_MESSAGE_BYTES,
};

verus! {

/// How deep messages may nest by default.
pub const RECURSION_LIMIT: u32 = 100;

/// How many unknown fields a decode keeps by default.
pub const DEFAULT_UNKNOWN_FIELD_LIMIT: usize = 1_000_000;

/// How much memory the elements of lists and maps may take by default.
pub const DEFAULT_ELEMENT_MEMORY_LIMIT: usize = 33_554_432;

/// The limits of a decode.
#[derive(Clone, Copy, Debug, PartialEq, Eq, Structural)]
pub struct DecodeOptions {
    pub recursion_limit: u32,
    pub max_message_size: usize,
    pub unknown_field_limit: usize,
    pub element_memory_limit: usize,
}

/// The limits for bytes that come from elsewhere.
pub open spec fn default_options() -> DecodeOptions {
    DecodeOptions {
        recursion_limit: RECURSION_LIMIT,
        max_message_size: MAX_MESSAGE_BYTES as usize,
        unknown_field_limit: DEFAULT_UNKNOWN_FIELD_LIMIT,
        element_memory_limit: DEFAULT_ELEMENT_MEMORY_LIMIT,
    }
}

impl DecodeOptions {
    /// The limits for bytes that come from elsewhere.
    pub fn new() -> (r: Self)
        ensures
            r == default_options(),
    {
        DecodeOptions {
            recursion_limit: RECURSION_LIMIT,
            max_message_size: MAX_MESSAGE_BYTES as usize,
            unknown_field_limit: DEFAULT_UNKNOWN_FIELD_LIMIT,
            element_memory_limit: DEFAULT_ELEMENT_MEMORY_LIMIT,
        }
    }

    /// The limits with another recursion limit.
    pub fn with_recursion_limit(self, limit: u32) -> (r: Self)
        ensures
            r == (DecodeOptions { recursion_limit: limit, ..self }),
    {
        DecodeOptions { recursion_limit: limit, ..self }
    }
}

/// `m` and `r` are what `expected` says they are.
pub open spec fn merges(
    m: MessageModel,
    r: Result<(&[u8], Budget), DecodeError>,
    expected: (MessageModel, Left),
) -> bool {
    &&& m == expected.0
    &&& match expected.1 {
        Ok(p) => r is Ok && r->Ok_0.0@ == p.0 && r->Ok_0.1 == p.1,
        Err(e) => r is Err && r->Err_0 == e,
    }
}

// ── What is left never grows ────────────────────────────────────────────────

proof fn lemma_fields_left(m: MessageModel, s: Seq<u8>, end: Option<u32>, depth: nat, b: Budget)
    ensures
        merge_fields(m, s, end, depth, b).1 matches Ok(r) ==> r.0.len() <= s.len(),
    decreases s.len(),
{
    lemma_take_tag(s);
    if let Ok(t) = take_tag(s) {
        if let (m1, Ok(r)) = merge_field(m, t.0, t.1, depth, b) {
            if r.0.len() < s.len() {
                lemma_fields_left(m1, r.0, end, depth, r.1);
            }
        }
    }
}

proof fn lemma_body_left(x: MessageModel, tag: Tag, s: Seq<u8>, depth: nat, b: Budget)
    ensures
        merge_body(x, tag, s, depth, b).1 matches Ok(r) ==> r.0.len() <= s.len(),
{
    lemma_take_delimited(s);
    lemma_fields_left(x, s, Some(tag.field_number), depth, b);
    assert(merge_message(x, s, Some(tag.field_number), depth, b).1 == merge_fields(
        x,
        s,
        Some(tag.field_number),
        depth,
        b,
    ).1);
}

proof fn lemma_element_left(
    pool: DescriptorPool,
    kind: SingularKind,
    tag: Tag,
    s: Seq<u8>,
    depth: nat,
    b: Budget,
)
    ensures
        take_element(pool, kind, tag, s, depth, b) matches Ok(r) ==> r.1.len() <= s.len(),
{
    match kind {
        SingularKind::Scalar(t) => {
            lemma_take_scalar(t, s);
        },
        SingularKind::Enum(_) => {
            lemma_take_scalar(ScalarType::Int32, s);
        },
        SingularKind::Message(i) => {
            if depth > 0 {
                lemma_body_left(empty_message(pool, i), tag, s, (depth - 1) as nat, b);
            }
        },
    }
}

proof fn lemma_field_left(m: MessageModel, tag: Tag, s: Seq<u8>, depth: nat, b: Budget)
    ensures
        merge_field(m, tag, s, depth, b).1 matches Ok(r) ==> r.0.len() <= s.len(),
{
    let n = tag.field_number;
    lemma_take_payload(tag, s, depth, Some(b.unknown as nat));
    lemma_take_scalar(ScalarType::Int32, s);
    lemma_take_delimited(s);
    if let Some(fd) = field_of(m.pool, m.index, n) {
        match fd.kind {
            FieldKind::Singular(k) => {
                lemma_element_left(m.pool, k, tag, s, depth, b);
                let m1 = clear_oneof(m, fd.oneof_index, n);
                if depth > 0 {
                    if let Some(ValueModel::Message(x)) = field_get(m1.fields, n) {
                        lemma_body_left(x, tag, s, (depth - 1) as nat, b);
                    }
                }
                assert(merge_existing(m1, n, tag, s, depth, b).1 matches Ok(r) ==> r.0.len()
                    <= s.len());
            },
            FieldKind::List(k) => {
                lemma_element_left(m.pool, k, tag, s, depth, b);
                assert(merge_list(m, n, k, fd.enum_type, tag, s, depth, b).1 matches Ok(r)
                    ==> r.0.len() <= s.len());
            },
            FieldKind::Mapping { key, value } => {
                assert(merge_map(m, n, key, value, fd.enum_type, s, depth, b).1 matches Ok(r)
                    ==> r.0.len() <= s.len());
            },
        }
    }
}

// ── Small steps ─────────────────────────────────────────────────────────────

/// The default of an element.
pub fn default_value(kind: SingularKind, pool: &Arc<DescriptorPool>) -> (r: Value)
    requires
        singular_linked(**pool, kind),
    ensures
        r@ == element_default(kind, **pool),
{
    match kind {
        SingularKind::Scalar(s) => default_scalar_value(s),
        SingularKind::Enum(_) => Value::EnumNumber(0),
        SingularKind::Message(i) => Value::Message(
            DynamicMessage::of_type(MessageType::new(share_pool(pool), i)),
        ),
    }
}

impl Budget {
    /// Takes `bytes` bytes of element memory.
    fn register_element_memory(self, bytes: usize) -> (r: Result<Budget, DecodeError>)
        ensures
            r == charge(self, bytes as nat),
    {
        if bytes > self.elements {
            Err(DecodeError::ElementMemoryLimitExceeded)
        } else {
            Ok(Budget { unknown: self.unknown, elements: self.elements - bytes })
        }
    }
}

fn value_size() -> (r: usize)
    ensures
        r == element_cost(),
{
    core::mem::size_of::<Value>()
}

fn entry_size() -> (r: usize)
    ensures
        r == entry_cost(),
{
    add_len(core::mem::size_of::<MapKey>(), core::mem::size_of::<Value>())
}

fn decode_packed_element(kind: SingularKind, field_number: u32, buf: &[u8]) -> (r: Result<
    (Value, &[u8]),
    DecodeError,
>)
    ensures
        reads_value(r, take_packed(kind, field_number, buf@)),
{
    match kind {
        SingularKind::Scalar(s) => decode_scalar(s, buf),
        SingularKind::Enum(_) => match decode_int32(buf) {
            Ok((n, rest)) => Ok((Value::EnumNumber(n), rest)),
            Err(e) => Err(e),
        },
        SingularKind::Message(_) => Err(
            DecodeError::WireTypeMismatch {
                field_number,
                expected: WireType::Varint.code(),
                actual: WireType::LengthDelimited.code(),
            },
        ),
    }
}

/// Adds packed elements to a list.
fn decode_packed(
    kind: SingularKind,
    number: u32,
    list: &mut Vec<Value>,
    payload: &[u8],
    budget: Budget,
) -> (r: Result<Budget, DecodeError>)
    ensures
        (items_view(final(list)@), r) == merge_packed(
            kind,
            number,
            items_view(old(list)@),
            payload@,
            budget,
        ),
{
    let ghost goal = merge_packed(kind, number, items_view(list@), payload@, budget);
    let mut rest = payload;
    let mut left = budget;
    while rest.len() > 0
        invariant
            merge_packed(kind, number, items_view(list@), rest@, left) == goal,
            goal == merge_packed(kind, number, items_view(old(list)@), payload@, budget),
        decreases rest@.len(),
    {
        left = match left.register_element_memory(value_size()) {
            Ok(b) => b,
            Err(e) => return Err(e),
        };
        proof {
            match kind {
                SingularKind::Scalar(s) => {
                    lemma_take_scalar(s, rest@);
                },
                _ => {
                    lemma_take_scalar(ScalarType::Int32, rest@);
                },
            }
        }
        let (v, more) = match decode_packed_element(kind, number, rest) {
            Ok(p) => p,
            Err(e) => return Err(e),
        };
        let ghost was = list@;
        let ghost v0 = v@;
        list.push(v);
        assert(items_view(list@) =~= items_view(was).push(v0));
        rest = more;
    }
    Ok(left)
}

impl DynamicMessage {
    /// Whether `value` is a value of the enum, for a field that says
    /// `field_enum_type` of it.
    fn enum_value_is_known(
        &self,
        e: EnumIndex,
        field_enum_type: Option<EnumType>,
        value: i32,
    ) -> (r: bool)
        requires
            e.0 < self@.pool.enum_seq().len(),
        ensures
            r == enum_knows(self@.pool, e, field_enum_type, value),
    {
        let pool = self.pool();
        !pool.enum_closed(e, field_enum_type) || pool.enumeration(e).declares_number(value)
    }

    /// Keeps an enum number as an unknown field.
    fn record_unknown_enum<'a>(
        &mut self,
        number: u32,
        value: i32,
        rest: &'a [u8],
        budget: Budget,
    ) -> (r: Result<(&'a [u8], Budget), DecodeError>)
        ensures
            merges(final(self)@, r, keep_number(old(self)@, number, value, rest@, budget)),
    {
        if budget.unknown == 0 {
            return Err(DecodeError::UnknownFieldLimitExceeded);
        }
        push_unknown_varint(self.unknown_mut(), number, to_wrapped64(value as i64));
        Ok((rest, Budget { unknown: budget.unknown - 1, elements: budget.elements }))
    }

    /// Keeps a payload as an unknown field.
    fn record_unknown_bytes<'a>(
        &mut self,
        number: u32,
        payload: &[u8],
        rest: &'a [u8],
        budget: Budget,
    ) -> (r: Result<(&'a [u8], Budget), DecodeError>)
        ensures
            merges(
                final(self)@,
                r,
                keep_unknown(
                    old(self)@,
                    UnknownEntry { number, data: UnknownPayload::LengthDelimited(payload@) },
                    rest@,
                    budget,
                ),
            ),
    {
        if budget.unknown == 0 {
            return Err(DecodeError::UnknownFieldLimitExceeded);
        }
        push_unknown_bytes(self.unknown_mut(), number, vstd::slice::slice_to_vec(payload));
        Ok((rest, Budget { unknown: budget.unknown - 1, elements: budget.elements }))
    }

    /// Reads a field as an unknown one.
    fn merge_unknown_field<'a>(
        &mut self,
        tag: Tag,
        buf: &'a [u8],
        depth: u32,
        budget: Budget,
    ) -> (r: Result<(&'a [u8], Budget), DecodeError>)
        requires
            1 <= tag.field_number <= MAX_FIELD_NUMBER,
        ensures
            merges(final(self)@, r, merge_unknown(old(self)@, tag, buf@, depth as nat, budget)),
    {
        let wire: u32 = tag.wire_type.code() as u32;
        assert(coded_tag(tag.field_number, wire) == tag);
        match read_unknown_field(
            self.unknown_mut(),
            tag.field_number,
            wire,
            buf,
            depth,
            budget.unknown,
        ) {
            Ok((rest, left)) => Ok((rest, Budget { unknown: left, elements: budget.elements })),
            Err(e) => Err(e),
        }
    }

    /// Clears every set member of the oneof except field `keep_number`.
    pub(crate) fn clear_other_oneof_members(&mut self, oneof: Option<u16>, keep_number: u32)
        ensures
            final(self)@ == clear_oneof(old(self)@, oneof, keep_number),
    {
        let oi: u16 = match oneof {
            Some(oi) => oi,
            None => return,
        };
        if oi as usize >= self.message_descriptor().oneofs.len() {
            return;
        }
        let ghost m = self@;
        let ghost md = m.pool.message_seq()[m.index.0 as int];
        let ghost members = md.oneofs@[oi as int].field_indices@;
        let mut i: usize = 0;
        while i < self.message_descriptor().oneofs[oi as usize].field_indices.len()
            invariant
                self@.pool == m.pool,
                self@.index == m.index,
                self@.unknown == m.unknown,
                md == m.pool.message_seq()[m.index.0 as int],
                oi < md.oneofs@.len(),
                members == md.oneofs@[oi as int].field_indices@,
                i <= members.len(),
                clear_members(self@.fields, md.fields@, members, keep_number, i as nat)
                    == clear_members(m.fields, md.fields@, members, keep_number, 0),
            decreases members.len() - i,
        {
            let descriptor = self.message_descriptor();
            let k: usize = descriptor.oneofs[oi as usize].field_indices[i] as usize;
            let mut gone: Option<u32> = None;
            if k < descriptor.fields.len() && descriptor.fields[k].number != keep_number {
                gone = Some(descriptor.fields[k].number);
            }
            if let Some(n) = gone {
                self.remove_value(n);
            }
            i = i + 1;
        }
        assert(self@ =~= clear_oneof(m, oneof, keep_number));
    }

    /// Puts the entries of every map in the order of their keys.
    fn normalize_maps(&mut self)
        ensures
            final(self)@ == normal_message(old(self)@),
    {
        let ghost m = self@;
        let mut i: usize = 0;
        while i < self.field_count()
            invariant
                self@.pool == m.pool,
                self@.index == m.index,
                self@.unknown == m.unknown,
                self@.fields.len() == m.fields.len(),
                i <= m.fields.len(),
                forall|k: int|
                    0 <= k < i ==> #[trigger] self@.fields[k] == (
                        m.fields[k].0,
                        normal_value(m.fields[k].1),
                    ),
                forall|k: int| i <= k < m.fields.len() ==> #[trigger] self@.fields[k] == m.fields[k],
            decreases m.fields.len() - i,
        {
            let ghost was = self@;
            let v = self.value_at_mut(i);
            if let Value::Mapping(map) = v {
                map.normalize();
            }
            i = i + 1;
            assert(self@.fields[i - 1] == (m.fields[i - 1].0, normal_value(m.fields[i - 1].1)));
        }
        assert(self@.fields =~= normal_fields(m.fields));
    }

    // ── The field loop ──────────────────────────────────────────────────────

    fn merge_buf<'a>(&mut self, buf: &'a [u8], depth: u32, budget: Budget) -> (r: Result<
        (&'a [u8], Budget),
        DecodeError,
    >)
        ensures
            merges(final(self)@, r, merge_message(old(self)@, buf@, None, depth as nat, budget)),
        decreases depth, buf@.len(), 5nat,
    {
        let r = self.merge_buf_fields(buf, depth, budget);
        self.normalize_maps();
        r
    }

    fn merge_buf_fields<'a>(&mut self, buf: &'a [u8], depth: u32, budget: Budget) -> (r: Result<
        (&'a [u8], Budget),
        DecodeError,
    >)
        ensures
            merges(final(self)@, r, merge_fields(old(self)@, buf@, None, depth as nat, budget)),
        decreases depth, buf@.len(), 4nat,
    {
        let ghost goal = merge_fields(self@, buf@, None, depth as nat, budget);
        let mut rest = buf;
        let mut left = budget;
        while rest.len() > 0
            invariant
                rest@.len() <= buf@.len(),
                merge_fields(self@, rest@, None, depth as nat, left) == goal,
                goal == merge_fields(old(self)@, buf@, None, depth as nat, budget),
            decreases rest@.len(),
        {
            proof {
                lemma_take_tag(rest@);
            }
            let (tag, more) = match read_tag(rest) {
                Ok(p) => p,
                Err(e) => return Err(e),
            };
            proof {
                lemma_field_left(self@, tag, more@, depth as nat, left);
            }
            let (next, b) = match self.merge_one_field(tag, more, depth, left) {
                Ok(p) => p,
                Err(e) => return Err(e),
            };
            rest = next;
            left = b;
        }
        Ok((rest, left))
    }

    /// Merges wire bytes up to the tag that closes a group.
    fn merge_group<'a>(
        &mut self,
        buf: &'a [u8],
        group_field_number: u32,
        depth: u32,
        budget: Budget,
    ) -> (r: Result<(&'a [u8], Budget), DecodeError>)
        ensures
            merges(
                final(self)@,
                r,
                merge_message(old(self)@, buf@, Some(group_field_number), depth as nat, budget),
            ),
        decreases depth, buf@.len(), 5nat,
    {
        let r = self.merge_group_fields(buf, group_field_number, depth, budget);
        self.normalize_maps();
        r
    }

    fn merge_group_fields<'a>(
        &mut self,
        buf: &'a [u8],
        group_field_number: u32,
        depth: u32,
        budget: Budget,
    ) -> (r: Result<(&'a [u8], Budget), DecodeError>)
        ensures
            merges(
                final(self)@,
                r,
                merge_fields(old(self)@, buf@, Some(group_field_number), depth as nat, budget),
            ),
        decreases depth, buf@.len(), 4nat,
    {
        let ghost goal = merge_fields(
            self@,
            buf@,
            Some(group_field_number),
            depth as nat,
            budget,
        );
        let mut rest = buf;
        let mut left = budget;
        loop
            invariant
                rest@.len() <= buf@.len(),
                merge_fields(self@, rest@, Some(group_field_number), depth as nat, left) == goal,
                goal == merge_fields(
                    old(self)@,
                    buf@,
                    Some(group_field_number),
                    depth as nat,
                    budget,
                ),
            decreases rest@.len(),
        {
            proof {
                lemma_take_tag(rest@);
            }
            let (tag, more) = match read_tag(rest) {
                Ok(p) => p,
                Err(e) => return Err(e),
            };
            if tag.wire_type == WireType::EndGroup {
                if tag.field_number != group_field_number {
                    return Err(DecodeError::InvalidEndGroup(tag.field_number));
                }
                return Ok((more, left));
            }
            proof {
                lemma_field_left(self@, tag, more@, depth as nat, left);
            }
            let (next, b) = match self.merge_one_field(tag, more, depth, left) {
                Ok(p) => p,
                Err(e) => return Err(e),
            };
            rest = next;
            left = b;
        }
    }

    /// Merges the field whose tag was read.
    fn merge_one_field<'a>(
        &mut self,
        tag: Tag,
        buf: &'a [u8],
        depth: u32,
        budget: Budget,
    ) -> (r: Result<(&'a [u8], Budget), DecodeError>)
        requires
            1 <= tag.field_number <= MAX_FIELD_NUMBER,
        ensures
            merges(final(self)@, r, merge_field(old(self)@, tag, buf@, depth as nat, budget)),
        decreases depth, buf@.len(), 3nat,
    {
        let number: u32 = tag.field_number;
        let (kind, oneof_index, enum_type) = match self.field_or_extension(number) {
            Some(fd) => (fd.kind, fd.oneof_index, fd.enum_type),
            None => return self.merge_unknown_field(tag, buf, depth, budget),
        };
        if !wire_type_compatible(kind, tag.wire_type) {
            return self.merge_unknown_field(tag, buf, depth, budget);
        }
        if let FieldKind::Singular(SingularKind::Enum(e)) = kind {
            let (raw, rest) = match decode_int32(buf) {
                Ok(p) => p,
                Err(e) => return Err(e),
            };
            if !self.enum_value_is_known(e, enum_type, raw) {
                return self.record_unknown_enum(number, raw, rest, budget);
            }
            self.clear_other_oneof_members(oneof_index, number);
            self.insert_value(number, Value::EnumNumber(raw));
            return Ok((rest, budget));
        }
        match kind {
            FieldKind::Singular(sk) => {
                if let SingularKind::Message(_) = sk {
                    if let Some(Value::Message(_)) = self.field_by_number(number) {
                        self.clear_other_oneof_members(oneof_index, number);
                        return self.merge_into_existing_message(number, tag, buf, depth, budget);
                    }
                }
                // Decoding comes before clearing: a replacement that fails to
                // decode leaves the member that is set in place.
                let (v, rest, left) = match self.decode_element(sk, tag, buf, depth, budget) {
                    Ok(p) => p,
                    Err(e) => return Err(e),
                };
                self.clear_other_oneof_members(oneof_index, number);
                self.insert_value(number, v);
                Ok((rest, left))
            },
            FieldKind::List(sk) => self.merge_list_field(
                number,
                sk,
                enum_type,
                tag,
                buf,
                depth,
                budget,
            ),
            FieldKind::Mapping { key, value } => self.merge_map_field(
                number,
                key,
                value,
                enum_type,
                buf,
                depth,
                budget,
            ),
        }
    }

    /// Merges wire bytes for a singular message field into the message that the
    /// field holds. What was merged before a failure stays.
    fn merge_into_existing_message<'a>(
        &mut self,
        number: u32,
        tag: Tag,
        buf: &'a [u8],
        depth: u32,
        budget: Budget,
    ) -> (r: Result<(&'a [u8], Budget), DecodeError>)
        requires
            number == tag.field_number,
        ensures
            merges(
                final(self)@,
                r,
                merge_existing(old(self)@, number, tag, buf@, depth as nat, budget),
            ),
        decreases depth, buf@.len(), 2nat,
    {
        if depth == 0 {
            return Err(DecodeError::RecursionLimitExceeded);
        }
        proof {
            lemma_put_same(self@.fields, number);
        }
        if let Some(v) = self.field_by_number_mut(number) {
            if let Value::Message(existing) = v {
                return existing.merge_payload(tag, buf, depth - 1, budget);
            }
        }
        Ok((buf, budget))
    }

    /// Merges the bytes of a message, in either of its two wire forms.
    fn merge_payload<'a>(&mut self, tag: Tag, buf: &'a [u8], depth: u32, budget: Budget) -> (r:
        Result<(&'a [u8], Budget), DecodeError>)
        ensures
            merges(final(self)@, r, merge_body(old(self)@, tag, buf@, depth as nat, budget)),
        decreases depth, buf@.len(), 6nat,
    {
        match tag.wire_type {
            WireType::LengthDelimited => {
                proof {
                    lemma_take_delimited(buf@);
                }
                let (payload, rest) = match read_delimited(buf) {
                    Ok(p) => p,
                    Err(e) => return Err(e),
                };
                match self.merge_buf(payload, depth, budget) {
                    Ok((_, left)) => Ok((rest, left)),
                    Err(e) => Err(e),
                }
            },
            WireType::StartGroup => self.merge_group(buf, tag.field_number, depth, budget),
            _ => Err(
                DecodeError::WireTypeMismatch {
                    field_number: tag.field_number,
                    expected: WireType::LengthDelimited.code(),
                    actual: tag.wire_type.code(),
                },
            ),
        }
    }

    /// Decodes one element.
    fn decode_element<'a>(
        &self,
        kind: SingularKind,
        tag: Tag,
        buf: &'a [u8],
        depth: u32,
        budget: Budget,
    ) -> (r: Result<(Value, &'a [u8], Budget), DecodeError>)
        requires
            singular_linked(self@.pool, kind),
        ensures
            match take_element(self@.pool, kind, tag, buf@, depth as nat, budget) {
                Ok(p) => r is Ok && r->Ok_0.0@ == p.0 && r->Ok_0.1@ == p.1 && r->Ok_0.2 == p.2,
                Err(e) => r is Err && r->Err_0 == e,
            },
        decreases depth, buf@.len(), 1nat,
    {
        match kind {
            SingularKind::Scalar(s) => match decode_scalar(s, buf) {
                Ok((v, rest)) => Ok((v, rest, budget)),
                Err(e) => Err(e),
            },
            SingularKind::Enum(_) => match decode_int32(buf) {
                Ok((n, rest)) => Ok((Value::EnumNumber(n), rest, budget)),
                Err(e) => Err(e),
            },
            SingularKind::Message(i) => {
                let ty = MessageType::new(share_pool(self.pool()), i);
                let mut nested = DynamicMessage::of_type(ty);
                if depth == 0 {
                    return Err(DecodeError::RecursionLimitExceeded);
                }
                match nested.merge_payload(tag, buf, depth - 1, budget) {
                    Ok((rest, left)) => Ok((Value::Message(nested), rest, left)),
                    Err(e) => Err(e),
                }
            },
        }
    }

    fn merge_list_field<'a>(
        &mut self,
        number: u32,
        elem: SingularKind,
        enum_type: Option<EnumType>,
        tag: Tag,
        buf: &'a [u8],
        depth: u32,
        budget: Budget,
    ) -> (r: Result<(&'a [u8], Budget), DecodeError>)
        requires
            singular_linked(old(self)@.pool, elem),
        ensures
            merges(
                final(self)@,
                r,
                merge_list(
                    old(self)@,
                    number,
                    elem,
                    enum_type,
                    tag,
                    buf@,
                    depth as nat,
                    budget,
                ),
            ),
        decreases depth, buf@.len(), 2nat,
    {
        if let SingularKind::Enum(e) = elem {
            if self.pool().enum_closed(e, enum_type) {
                return self.merge_closed_enum_list(number, e, tag, buf, budget);
            }
        }
        let ghost m = self@;
        let mut list = self.take_list(number);
        let ghost l = items_view(list@);
        proof {
            assert forall|w: ValueModel| #[trigger]
                with_field(self@, number, w) == with_field(m, number, w) by {
                lemma_put_put(m.fields, number, ValueModel::List(Seq::empty()), w);
            }
        }
        if tag.wire_type == WireType::LengthDelimited && is_packable(elem) {
            let (payload, rest) = match read_delimited(buf) {
                Ok(p) => p,
                Err(e) => {
                    self.insert_value(number, Value::List(list));
                    return Err(e);
                },
            };
            let r = decode_packed(elem, number, &mut list, payload, budget);
            self.insert_value(number, Value::List(list));
            return match r {
                Ok(left) => Ok((rest, left)),
                Err(e) => Err(e),
            };
        }
        let (v, rest, left) = match self.decode_element(elem, tag, buf, depth, budget) {
            Ok(p) => p,
            Err(e) => {
                self.insert_value(number, Value::List(list));
                return Err(e);
            },
        };
        match left.register_element_memory(value_size()) {
            Err(e) => {
                self.insert_value(number, Value::List(list));
                Err(e)
            },
            Ok(b) => {
                let ghost was = list@;
                let ghost v0 = v@;
                list.push(v);
                assert(items_view(list@) =~= items_view(was).push(v0));
                self.insert_value(number, Value::List(list));
                Ok((rest, b))
            },
        }
    }

    fn merge_closed_enum_list<'a>(
        &mut self,
        number: u32,
        e: EnumIndex,
        tag: Tag,
        buf: &'a [u8],
        budget: Budget,
    ) -> (r: Result<(&'a [u8], Budget), DecodeError>)
        requires
            e.0 < old(self)@.pool.enum_seq().len(),
        ensures
            merges(final(self)@, r, merge_closed_list(old(self)@, number, e, tag, buf@, budget)),
    {
        let mut known: Vec<Value> = Vec::new();
        assert(items_view(known@) =~= Seq::<ValueModel>::empty());
        let mut left = budget;
        let mut behind = buf;
        if tag.wire_type == WireType::LengthDelimited {
            let (payload, rest) = match read_delimited(buf) {
                Ok(p) => p,
                Err(x) => return Err(x),
            };
            let ghost goal = merge_packed_closed(
                self@,
                number,
                e,
                Seq::empty(),
                payload@,
                budget,
            );
            let mut packed = payload;
            while packed.len() > 0
                invariant
                    e.0 < self@.pool.enum_seq().len(),
                    merge_packed_closed(
                        self@,
                        number,
                        e,
                        items_view(known@),
                        packed@,
                        left,
                    ) == goal,
                    take_delimited(buf@) matches Ok(p) && p.0 == payload@,
                    tag.wire_type == WireType::LengthDelimited,
                    goal == merge_packed_closed(
                        old(self)@,
                        number,
                        e,
                        Seq::empty(),
                        payload@,
                        budget,
                    ),
                decreases packed@.len(),
            {
                proof {
                    lemma_take_scalar(ScalarType::Int32, packed@);
                }
                let (raw, more) = match decode_int32(packed) {
                    Ok(p) => p,
                    Err(x) => return Err(x),
                };
                if self.enum_value_is_known(e, Some(EnumType::Closed), raw) {
                    left = match left.register_element_memory(value_size()) {
                        Ok(b) => b,
                        Err(x) => return Err(x),
                    };
                    let ghost was = known@;
                    known.push(Value::EnumNumber(raw));
                    assert(items_view(known@) =~= items_view(was).push(
                        ValueModel::EnumNumber(raw),
                    ));
                } else {
                    left = match self.record_unknown_enum(number, raw, more, left) {
                        Ok((_, b)) => b,
                        Err(x) => return Err(x),
                    };
                }
                packed = more;
            }
            behind = rest;
        } else {
            let (raw, rest) = match decode_int32(buf) {
                Ok(p) => p,
                Err(x) => return Err(x),
            };
            if self.enum_value_is_known(e, Some(EnumType::Closed), raw) {
                left = match budget.register_element_memory(value_size()) {
                    Ok(b) => b,
                    Err(x) => return Err(x),
                };
                known.push(Value::EnumNumber(raw));
                assert(items_view(known@) =~= seq![ValueModel::EnumNumber(raw)]);
            } else {
                return self.record_unknown_enum(number, raw, rest, budget);
            }
            behind = rest;
        }
        if known.len() == 0 {
            return Ok((behind, left));
        }
        let ghost m = self@;
        let ghost more = items_view(known@);
        let mut list = self.take_list(number);
        let ghost l = list@;
        let ghost k = known@;
        list.append(&mut known);
        assert(items_view(list@) =~= items_view(l) + more);
        proof {
            lemma_put_put(
                m.fields,
                number,
                ValueModel::List(Seq::empty()),
                ValueModel::List(items_view(list@)),
            );
        }
        self.insert_value(number, Value::List(list));
        Ok((behind, left))
    }

    /// Adds an entry to the map of field `number`.
    fn push_entry(&mut self, number: u32, k: MapKey, v: Value)
        ensures
            final(self)@ == add_entry(old(self)@, number, k@, v@),
    {
        let ghost m = self@;
        let mut map = self.take_map(number);
        map.push_unsorted(k, v);
        proof {
            lemma_put_put(
                m.fields,
                number,
                ValueModel::Mapping(Seq::empty()),
                ValueModel::Mapping(map@),
            );
        }
        self.insert_value(number, Value::Mapping(map));
    }

    fn merge_map_field<'a>(
        &mut self,
        number: u32,
        key_ty: ScalarType,
        value_kind: SingularKind,
        enum_type: Option<EnumType>,
        buf: &'a [u8],
        depth: u32,
        budget: Budget,
    ) -> (r: Result<(&'a [u8], Budget), DecodeError>)
        requires
            singular_linked(old(self)@.pool, value_kind),
        ensures
            merges(
                final(self)@,
                r,
                merge_map(
                    old(self)@,
                    number,
                    key_ty,
                    value_kind,
                    enum_type,
                    buf@,
                    depth as nat,
                    budget,
                ),
            ),
        decreases depth, buf@.len(), 2nat,
    {
        if let SingularKind::Enum(e) = value_kind {
            if self.pool().enum_closed(e, enum_type) {
                return self.merge_closed_enum_map_field(number, key_ty, e, buf, depth, budget);
            }
        }
        let ghost m = self@;
        proof {
            lemma_take_delimited(buf@);
        }
        let (payload, behind) = match read_delimited(buf) {
            Ok(p) => p,
            Err(e) => return Err(e),
        };
        let ghost goal = take_entry(
            m.pool,
            key_ty,
            value_kind,
            payload@,
            depth as nat,
            budget,
            None,
            None,
        );
        let mut key: Option<MapKey> = None;
        let mut value: Option<Value> = None;
        let ghost mut key_model: Option<KeyModel> = None;
        let ghost mut value_model: Option<ValueModel> = None;
        let mut entry = payload;
        let mut left = budget;
        while entry.len() > 0
            invariant
                self@ == m,
                singular_linked(m.pool, value_kind),
                entry@.len() <= payload@.len(),
                payload@.len() < buf@.len(),
                match key {
                    Some(k) => key_model == Some(k@),
                    None => key_model is None,
                },
                match value {
                    Some(v) => value_model == Some(v@),
                    None => value_model is None,
                },
                take_entry(
                    m.pool,
                    key_ty,
                    value_kind,
                    entry@,
                    depth as nat,
                    left,
                    key_model,
                    value_model,
                ) == goal,
                take_delimited(buf@) matches Ok(p) && p.0 == payload@,
                goal == take_entry(
                    m.pool,
                    key_ty,
                    value_kind,
                    payload@,
                    depth as nat,
                    budget,
                    None,
                    None,
                ),
                old(self)@ == m,
                !(value_kind is Enum && enum_is_closed(m.pool, value_kind->Enum_0, enum_type)),
            decreases entry@.len(),
        {
            proof {
                lemma_take_tag(entry@);
            }
            let (tag, rest) = match read_tag(entry) {
                Ok(p) => p,
                Err(e) => return Err(e),
            };
            if tag.field_number == 1 {
                proof {
                    lemma_take_scalar(key_ty, rest@);
                }
                match decode_map_key(key_ty, tag, rest) {
                    Ok((k, next)) => {
                        proof {
                            key_model = Some(k@);
                        }
                        key = Some(k);
                        entry = next;
                    },
                    Err(e) => return Err(e),
                }
            } else if tag.field_number == 2 {
                // No level is taken for the entry itself: a message value takes
                // one, as everywhere.
                proof {
                    lemma_element_left(m.pool, value_kind, tag, rest@, depth as nat, left);
                }
                match self.decode_element(value_kind, tag, rest, depth, left) {
                    Ok((v, next, b)) => {
                        proof {
                            value_model = Some(v@);
                        }
                        value = Some(v);
                        entry = next;
                        left = b;
                    },
                    Err(e) => return Err(e),
                }
            } else {
                let wire: u32 = tag.wire_type.code() as u32;
                proof {
                    assert(coded_tag(tag.field_number, wire) == tag);
                    lemma_take_payload(tag, rest@, depth as nat, None);
                }
                match skip_field(tag.field_number, wire, rest, depth) {
                    Ok(next) => {
                        entry = next;
                    },
                    Err(e) => return Err(e),
                }
            }
        }
        let k = match key {
            Some(k) => k,
            None => default_map_key(key_ty),
        };
        let v = match value {
            Some(v) => v,
            None => default_value(value_kind, self.pool()),
        };
        match left.register_element_memory(entry_size()) {
            Err(e) => Err(e),
            Ok(b) => {
                self.push_entry(number, k, v);
                Ok((behind, b))
            },
        }
    }

    fn merge_closed_enum_map_field<'a>(
        &mut self,
        number: u32,
        key_ty: ScalarType,
        e: EnumIndex,
        buf: &'a [u8],
        depth: u32,
        budget: Budget,
    ) -> (r: Result<(&'a [u8], Budget), DecodeError>)
        requires
            e.0 < old(self)@.pool.enum_seq().len(),
        ensures
            merges(
                final(self)@,
                r,
                merge_closed_map(old(self)@, number, key_ty, e, buf@, depth as nat, budget),
            ),
    {
        let ghost m = self@;
        let (payload, behind) = match read_delimited(buf) {
            Ok(p) => p,
            Err(x) => return Err(x),
        };
        let ghost goal = take_closed_entry(
            m.pool,
            key_ty,
            e,
            payload@,
            depth as nat,
            None,
            ClosedValue::Absent,
        );
        let mut key: Option<MapKey> = None;
        let mut value: Option<i32> = None;
        let mut value_unknown = false;
        let ghost mut key_model: Option<KeyModel> = None;
        let ghost mut value_model = ClosedValue::Absent;
        let mut entry = payload;
        while entry.len() > 0
            invariant
                self@ == m,
                e.0 < m.pool.enum_seq().len(),
                match key {
                    Some(k) => key_model == Some(k@),
                    None => key_model is None,
                },
                value_model == if value_unknown {
                    ClosedValue::Unknown
                } else {
                    match value {
                        Some(n) => ClosedValue::Known(n),
                        None => ClosedValue::Absent,
                    }
                },
                take_closed_entry(
                    m.pool,
                    key_ty,
                    e,
                    entry@,
                    depth as nat,
                    key_model,
                    value_model,
                ) == goal,
                take_delimited(buf@) matches Ok(p) && p.0 == payload@,
                goal == take_closed_entry(
                    m.pool,
                    key_ty,
                    e,
                    payload@,
                    depth as nat,
                    None,
                    ClosedValue::Absent,
                ),
                old(self)@ == m,
            decreases entry@.len(),
        {
            proof {
                lemma_take_tag(entry@);
            }
            let (tag, rest) = match read_tag(entry) {
                Ok(p) => p,
                Err(x) => return Err(x),
            };
            if tag.field_number == 1 {
                proof {
                    lemma_take_scalar(key_ty, rest@);
                }
                match decode_map_key(key_ty, tag, rest) {
                    Ok((k, next)) => {
                        proof {
                            key_model = Some(k@);
                        }
                        key = Some(k);
                        entry = next;
                    },
                    Err(x) => return Err(x),
                }
            } else if tag.field_number == 2 {
                proof {
                    lemma_take_scalar(ScalarType::Int32, rest@);
                }
                let (raw, next) = match decode_int32(rest) {
                    Ok(p) => p,
                    Err(x) => return Err(x),
                };
                if self.enum_value_is_known(e, Some(EnumType::Closed), raw) {
                    value = Some(raw);
                    value_unknown = false;
                    proof {
                        value_model = ClosedValue::Known(raw);
                    }
                } else {
                    value = None;
                    value_unknown = true;
                    proof {
                        value_model = ClosedValue::Unknown;
                    }
                }
                entry = next;
            } else {
                let wire: u32 = tag.wire_type.code() as u32;
                proof {
                    assert(coded_tag(tag.field_number, wire) == tag);
                    lemma_take_payload(tag, rest@, depth as nat, None);
                }
                match skip_field(tag.field_number, wire, rest, depth) {
                    Ok(next) => {
                        entry = next;
                    },
                    Err(x) => return Err(x),
                }
            }
        }
        if value_unknown {
            return self.record_unknown_bytes(number, payload, behind, budget);
        }
        let k = match key {
            Some(k) => k,
            None => default_map_key(key_ty),
        };
        let n: i32 = match value {
            Some(n) => n,
            None => 0,
        };
        match budget.register_element_memory(entry_size()) {
            Err(x) => Err(x),
            Ok(b) => {
                self.push_entry(number, k, Value::EnumNumber(n));
                Ok((behind, b))
            },
        }
    }
}

// ── Whole messages ──────────────────────────────────────────────────────────

/// The budget that a decode starts with.
pub open spec fn full_budget(o: DecodeOptions) -> Budget {
    Budget { unknown: o.unknown_field_limit, elements: o.element_memory_limit }
}

/// The message with the bytes merged into it, and what failed, if anything.
/// Bytes over the size limit are not looked at.
pub open spec fn merged(m: MessageModel, s: Seq<u8>, o: DecodeOptions) -> (
    MessageModel,
    Result<(), DecodeError>,
) {
    if s.len() > o.max_message_size {
        (m, Err(DecodeError::MessageTooLarge))
    } else {
        let r = merge_message(m, s, None, o.recursion_limit as nat, full_budget(o));
        match r.1 {
            Ok(_) => (r.0, Ok(())),
            Err(e) => (r.0, Err(e)),
        }
    }
}

/// The message that the bytes stand for.
pub open spec fn decoded(
    pool: DescriptorPool,
    index: MessageIndex,
    s: Seq<u8>,
    o: DecodeOptions,
) -> Result<MessageModel, DecodeError> {
    match merged(empty_message(pool, index), s, o) {
        (m, Ok(())) => Ok(m),
        (_, Err(e)) => Err(e),
    }
}

/// `r` is the executable form of the decode `m`.
pub open spec fn decodes(
    r: Result<DynamicMessage, DecodeError>,
    m: Result<MessageModel, DecodeError>,
) -> bool {
    match m {
        Ok(x) => r is Ok && r->Ok_0@ == x,
        Err(e) => r is Err && r->Err_0 == e,
    }
}

impl DynamicMessage {
    /// An empty message of the given type.
    pub fn new(pool: Arc<DescriptorPool>, msg_idx: MessageIndex) -> (r: Self)
        requires
            msg_idx.0 < pool.message_seq().len(),
        ensures
            r@ == empty_message(*pool, msg_idx),
    {
        DynamicMessage::of_type(MessageType::new(pool, msg_idx))
    }

    /// An empty message of the type named `full_name`; `None` where the pool
    /// has no such type.
    pub fn new_by_name(pool: Arc<DescriptorPool>, full_name: &str) -> (r: Option<Self>)
        ensures
            match index_of(*pool, full_name@) {
                Some(i) => r is Some && r->Some_0@ == empty_message(*pool, i),
                None => r is None,
            },
    {
        match pool.message_index(full_name) {
            Some(i) => Some(Self::new(pool, i)),
            None => None,
        }
    }

    /// Merges more wire bytes into this message under the default limits.
    ///
    /// A failure leaves in place what was merged before it.
    pub fn merge(&mut self, bytes: &[u8]) -> (r: Result<(), DecodeError>)
        ensures
            (final(self)@, r) == merged(old(self)@, bytes@, default_options()),
    {
        self.merge_with_options(bytes, &DecodeOptions::new())
    }

    /// Merges more wire bytes under the given limits.
    pub fn merge_with_options(&mut self, bytes: &[u8], options: &DecodeOptions) -> (r: Result<
        (),
        DecodeError,
    >)
        ensures
            (final(self)@, r) == merged(old(self)@, bytes@, *options),
    {
        if bytes.len() > options.max_message_size {
            return Err(DecodeError::MessageTooLarge);
        }
        let budget = Budget {
            unknown: options.unknown_field_limit,
            elements: options.element_memory_limit,
        };
        match self.merge_buf(bytes, options.recursion_limit, budget) {
            Ok(_) => Ok(()),
            Err(e) => Err(e),
        }
    }

    /// Decodes wire bytes under the default limits.
    pub fn decode(pool: Arc<DescriptorPool>, msg_idx: MessageIndex, bytes: &[u8]) -> (r: Result<
        Self,
        DecodeError,
    >)
        requires
            msg_idx.0 < pool.message_seq().len(),
        ensures
            decodes(r, decoded(*pool, msg_idx, bytes@, default_options())),
    {
        Self::decode_with_options(pool, msg_idx, bytes, &DecodeOptions::new())
    }

    /// Decodes wire bytes under the given limits.
    pub fn decode_with_options(
        pool: Arc<DescriptorPool>,
        msg_idx: MessageIndex,
        bytes: &[u8],
        options: &DecodeOptions,
    ) -> (r: Result<Self, DecodeError>)
        requires
            msg_idx.0 < pool.message_seq().len(),
        ensures
            decodes(r, decoded(*pool, msg_idx, bytes@, *options)),
    {
        let mut msg = Self::new(pool, msg_idx);
        match msg.merge_with_options(bytes, options) {
            Ok(()) => Ok(msg),
            Err(e) => Err(e),
        }
    }

    /// Decodes with `depth` levels of nesting in place of the default limit.
    ///
    /// For payloads that are nested inside a message that is already decoded,
    /// so that they continue its count. The other limits start afresh.
    pub fn decode_at_depth(
        pool: Arc<DescriptorPool>,
        msg_idx: MessageIndex,
        bytes: &[u8],
        depth: u32,
    ) -> (r: Result<Self, DecodeError>)
        requires
            msg_idx.0 < pool.message_seq().len(),
        ensures
            decodes(r, decoded(*pool, msg_idx, bytes@, depth_options(depth))),
    {
        let options = DecodeOptions::new().with_recursion_limit(depth);
        Self::decode_with_options(pool, msg_idx, bytes, &options)
    }

    /// The dynamic form of a message of which `encoded` are the bytes. They
    /// must decode as the given type.
    pub fn from_message(encoded: &[u8], pool: Arc<DescriptorPool>, msg_idx: MessageIndex) -> (r:
        Self)
        requires
            msg_idx.0 < pool.message_seq().len(),
            decoded(*pool, msg_idx, encoded@, default_options()) is Ok,
        ensures
            r@ == decoded(*pool, msg_idx, encoded@, default_options())->Ok_0,
    {
        let mut msg = Self::new(pool, msg_idx);
        let _ = msg.merge(encoded);
        msg
    }

    /// The bytes from which another form of this message is decoded.
    pub fn to_message(&self) -> (r: Result<Vec<u8>, DecodeError>)
        ensures
            if message_bytes(self@).len() <= MAX_MESSAGE_BYTES {
                r is Ok && r->Ok_0@ == message_bytes(self@)
            } else {
                r is Err && r->Err_0 == DecodeError::MessageTooLarge
            },
    {
        match self.try_encode_to_vec() {
            Ok(bytes) => Ok(bytes),
            Err(_) => Err(DecodeError::MessageTooLarge),
        }
    }

    /// Decodes an options message, so that custom options (extensions of its
    /// type) can be read. `encoded` are its bytes, if it could be encoded.
    /// `None` where they are missing, where the pool has no type of that name,
    /// or where the bytes do not decode.
    pub fn from_options(
        pool: Arc<DescriptorPool>,
        full_name: &str,
        encoded: Option<Vec<u8>>,
    ) -> (r: Option<Self>)
        ensures
            match (index_of(*pool, full_name@), encoded) {
                (Some(i), Some(bytes)) => match decoded(*pool, i, bytes@, default_options()) {
                    Ok(m) => r is Some && r->Some_0@ == m,
                    Err(_) => r is None,
                },
                _ => r is None,
            },
    {
        let index = match pool.message_index(full_name) {
            Some(i) => i,
            None => return None,
        };
        let bytes = match encoded {
            Some(bytes) => bytes,
            None => return None,
        };
        match Self::decode(pool, index, bytes.as_slice()) {
            Ok(m) => Some(m),
            Err(_) => None,
        }
    }
}

/// The default limits with another recursion limit.
pub open spec fn depth_options(depth: u32) -> DecodeOptions {
    DecodeOptions { recursion_limit: depth, ..default_options() }
}

} // verus!
