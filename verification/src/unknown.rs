//! Unknown fields: what a message keeps of the wire fields that its schema
//! does not explain.
use vstd::prelude::*;
use buffa::encoding;
use buffa::encoding::WireType as WireTypeCode;
use buffa::DecodeContext;
use buffa::DecodeError as OuterError;
use buffa::UnknownFields;
use crate::wire::{
    delimited_bytes, le_bytes, lemma_take_delimited, lemma_take_delimited_bytes,
    lemma_take_fixed_bytes, lemma_take_tag, lemma_take_tag_bytes, lemma_take_varint,
    lemma_take_varint_bytes, tag_bytes, take_delimited, take_fixed, take_tag, take_varint,
    varint_bytes, wire_of_code, DecodeError, Tag, WireType, MAX_FIELD_NUMBER,
};

verus! {

/// The collection of unknown fields that a message carries.
#[verifier::external_type_specification]
#[verifier::external_body]
pub struct OuterUnknownFields(UnknownFields);

/// An unknown field: its number and its payload.
#[verifier::ext_equal]
pub struct UnknownEntry {
    pub number: u32,
    pub data: UnknownPayload,
}

/// The payload of an unknown field, by wire type.
#[verifier::ext_equal]
pub enum UnknownPayload {
    Varint(u64),
    Fixed64(u64),
    Fixed32(u32),
    LengthDelimited(Seq<u8>),
    Group(Seq<UnknownEntry>),
}

/// The entries of a collection of unknown fields, in the order in which they
/// were added.
pub uninterp spec fn unknown_entries(fields: UnknownFields) -> Seq<UnknownEntry>;

// ── Writing ─────────────────────────────────────────────────────────────────

/// The wire type that a payload is written with.
pub open spec fn payload_wire(data: UnknownPayload) -> WireType {
    match data {
        UnknownPayload::Varint(_) => WireType::Varint,
        UnknownPayload::Fixed64(_) => WireType::Fixed64,
        UnknownPayload::Fixed32(_) => WireType::Fixed32,
        UnknownPayload::LengthDelimited(_) => WireType::LengthDelimited,
        UnknownPayload::Group(_) => WireType::StartGroup,
    }
}

/// The bytes of an entry behind its tag. A group is closed by a tag of its own
/// number.
pub open spec fn payload_bytes(e: UnknownEntry) -> Seq<u8>
    decreases e,
{
    match e.data {
        UnknownPayload::Varint(v) => varint_bytes(v as nat),
        UnknownPayload::Fixed64(v) => le_bytes(v as nat, 8),
        UnknownPayload::Fixed32(v) => le_bytes(v as nat, 4),
        UnknownPayload::LengthDelimited(b) => delimited_bytes(b),
        UnknownPayload::Group(g) => unknown_bytes(g) + tag_bytes(e.number, WireType::EndGroup),
    }
}

/// The bytes of the entries, one behind the other, each behind its tag.
pub open spec fn unknown_bytes(us: Seq<UnknownEntry>) -> Seq<u8>
    decreases us,
{
    if us.len() == 0 {
        Seq::empty()
    } else {
        tag_bytes(us[0].number, payload_wire(us[0].data)) + payload_bytes(us[0]) + unknown_bytes(
            us.subrange(1, us.len() as int),
        )
    }
}

// ── Reading ─────────────────────────────────────────────────────────────────

/// One slot less, where slots are counted.
pub open spec fn spend(slots: Option<nat>) -> Option<nat> {
    match slots {
        Some(n) => Some((n - 1) as nat),
        None => None,
    }
}

/// The payload behind `tag` at the front of `s`. Each field that is read, at
/// every level of nesting, takes one of the `slots`; each group takes one
/// level of `depth`, and its own number must close it.
pub open spec fn take_payload(tag: Tag, s: Seq<u8>, depth: nat, slots: Option<nat>) -> Result<
    (UnknownPayload, Seq<u8>, Option<nat>),
    DecodeError,
>
    decreases depth, s.len(), 0nat,
{
    if slots == Some(0nat) {
        Err(DecodeError::UnknownFieldLimitExceeded)
    } else {
        match tag.wire_type {
            WireType::Varint => match take_varint(s) {
                Ok(p) => Ok((UnknownPayload::Varint(p.0), p.1, spend(slots))),
                Err(e) => Err(e),
            },
            WireType::Fixed64 => match take_fixed(s, 8) {
                Ok(p) => Ok((UnknownPayload::Fixed64(p.0 as u64), p.1, spend(slots))),
                Err(e) => Err(e),
            },
            WireType::Fixed32 => match take_fixed(s, 4) {
                Ok(p) => Ok((UnknownPayload::Fixed32(p.0 as u32), p.1, spend(slots))),
                Err(e) => Err(e),
            },
            WireType::LengthDelimited => match take_delimited(s) {
                Ok(p) => Ok((UnknownPayload::LengthDelimited(p.0), p.1, spend(slots))),
                Err(e) => Err(e),
            },
            WireType::StartGroup => if depth == 0 {
                Err(DecodeError::RecursionLimitExceeded)
            } else {
                match take_group(tag.field_number, s, (depth - 1) as nat, spend(slots)) {
                    Ok(p) => Ok((UnknownPayload::Group(p.0), p.1, p.2)),
                    Err(e) => Err(e),
                }
            },
            WireType::EndGroup => Err(DecodeError::InvalidWireType(4)),
        }
    }
}

/// The fields at the front of `s` up to the tag that closes group `number`.
pub open spec fn take_group(number: u32, s: Seq<u8>, depth: nat, slots: Option<nat>) -> Result<
    (Seq<UnknownEntry>, Seq<u8>, Option<nat>),
    DecodeError,
>
    decreases depth, s.len(), 1nat,
{
    proof {
        lemma_take_tag(s);
    }
    match take_tag(s) {
        Err(e) => Err(e),
        Ok(t) => if t.0.wire_type == WireType::EndGroup {
            if t.0.field_number != number {
                Err(DecodeError::InvalidEndGroup(t.0.field_number))
            } else {
                Ok((Seq::empty(), t.1, slots))
            }
        } else {
            match take_payload(t.0, t.1, depth, slots) {
                Err(e) => Err(e),
                // What is left never grows.
                Ok(p) => if p.1.len() >= s.len() {
                    Err(DecodeError::UnexpectedEof)
                } else {
                    match take_group(number, p.1, depth, p.2) {
                        Err(e) => Err(e),
                        Ok(g) => Ok(
                            (
                                seq![UnknownEntry { number: t.0.field_number, data: p.0 }] + g.0,
                                g.1,
                                g.2,
                            ),
                        ),
                    }
                },
            }
        },
    }
}

/// What is left behind a payload that is skipped over.
pub open spec fn skip_payload(tag: Tag, s: Seq<u8>, depth: nat) -> Result<Seq<u8>, DecodeError> {
    match take_payload(tag, s, depth, None) {
        Ok(p) => Ok(p.1),
        Err(e) => Err(e),
    }
}

/// Reading a payload never leaves more than there was, nor more slots.
pub proof fn lemma_take_payload(tag: Tag, s: Seq<u8>, depth: nat, slots: Option<nat>)
    ensures
        take_payload(tag, s, depth, slots) matches Ok(p) ==> p.1.len() <= s.len() && (
        slots matches Some(n) ==> p.2 matches Some(k) && k < n),
    decreases depth, s.len(), 0nat,
{
    lemma_take_varint(s);
    lemma_take_delimited(s);
    if tag.wire_type == WireType::StartGroup && depth > 0 {
        lemma_take_group(tag.field_number, s, (depth - 1) as nat, spend(slots));
    }
}

proof fn lemma_take_group(number: u32, s: Seq<u8>, depth: nat, slots: Option<nat>)
    ensures
        take_group(number, s, depth, slots) matches Ok(p) ==> p.1.len() <= s.len() && (
        slots matches Some(n) ==> p.2 matches Some(k) && k <= n),
    decreases depth, s.len(), 1nat,
{
    lemma_take_tag(s);
    if let Ok(t) = take_tag(s) {
        if t.0.wire_type != WireType::EndGroup {
            lemma_take_payload(t.0, t.1, depth, slots);
            if let Ok(p) = take_payload(t.0, t.1, depth, slots) {
                lemma_take_group(number, p.1, depth, p.2);
            }
        }
    }
}

// ── Reading back what was written ───────────────────────────────────────────

/// The slots that reading an entry takes.
pub open spec fn entry_slots(e: UnknownEntry) -> nat
    decreases e,
{
    match e.data {
        UnknownPayload::Group(g) => 1 + unknown_slots(g),
        _ => 1,
    }
}

/// The slots that reading the entries takes.
pub open spec fn unknown_slots(us: Seq<UnknownEntry>) -> nat
    decreases us,
{
    if us.len() == 0 {
        0
    } else {
        entry_slots(us[0]) + unknown_slots(us.subrange(1, us.len() as int))
    }
}

/// The levels of groups in an entry.
pub open spec fn entry_depth(e: UnknownEntry) -> nat
    decreases e,
{
    match e.data {
        UnknownPayload::Group(g) => 1 + unknown_depth(g),
        _ => 0,
    }
}

/// The levels of groups in the entries.
pub open spec fn unknown_depth(us: Seq<UnknownEntry>) -> nat
    decreases us,
{
    if us.len() == 0 {
        0
    } else {
        let a = entry_depth(us[0]);
        let b = unknown_depth(us.subrange(1, us.len() as int));
        if a >= b {
            a
        } else {
            b
        }
    }
}

/// The entry can stand on the wire: its number and those of what it holds fit
/// in tags, and its payload has a length.
pub open spec fn entry_sound(e: UnknownEntry) -> bool
    decreases e,
{
    &&& 1 <= e.number <= MAX_FIELD_NUMBER
    &&& match e.data {
        UnknownPayload::LengthDelimited(b) => b.len() <= usize::MAX,
        UnknownPayload::Group(g) => unknown_sound(g),
        _ => true,
    }
}

/// The entries can stand on the wire.
pub open spec fn unknown_sound(us: Seq<UnknownEntry>) -> bool
    decreases us,
{
    us.len() > 0 ==> entry_sound(us[0]) && unknown_sound(us.subrange(1, us.len() as int))
}

/// `slots` less `n`, where slots are counted.
pub open spec fn spend_many(slots: Option<nat>, n: nat) -> Option<nat> {
    match slots {
        Some(k) => Some((k - n) as nat),
        None => None,
    }
}

/// Reading an entry gives back what was written of it.
pub proof fn lemma_take_payload_bytes(
    e: UnknownEntry,
    tail: Seq<u8>,
    depth: nat,
    slots: Option<nat>,
)
    requires
        entry_sound(e),
        entry_depth(e) <= depth,
        slots matches Some(n) ==> entry_slots(e) <= n,
    ensures
        take_payload(
            Tag { field_number: e.number, wire_type: payload_wire(e.data) },
            payload_bytes(e) + tail,
            depth,
            slots,
        ) == Ok::<(UnknownPayload, Seq<u8>, Option<nat>), DecodeError>(
            (e.data, tail, spend_many(slots, entry_slots(e))),
        ),
    decreases e,
{
    match e.data {
        UnknownPayload::Varint(v) => {
            lemma_take_varint_bytes(v, tail);
        },
        UnknownPayload::Fixed64(v) => {
            lemma_take_fixed_bytes(v as nat, tail);
        },
        UnknownPayload::Fixed32(v) => {
            lemma_take_fixed_bytes(v as nat, tail);
        },
        UnknownPayload::LengthDelimited(b) => {
            lemma_take_delimited_bytes(b, tail);
        },
        UnknownPayload::Group(g) => {
            assert(payload_bytes(e) + tail =~= unknown_bytes(g) + (tag_bytes(
                e.number,
                WireType::EndGroup,
            ) + tail));
            lemma_take_group_bytes(e.number, g, tail, (depth - 1) as nat, spend(slots));
        },
    }
}

/// Reading a group gives back what was written of it.
proof fn lemma_take_group_bytes(
    number: u32,
    us: Seq<UnknownEntry>,
    tail: Seq<u8>,
    depth: nat,
    slots: Option<nat>,
)
    requires
        1 <= number <= MAX_FIELD_NUMBER,
        unknown_sound(us),
        unknown_depth(us) <= depth,
        slots matches Some(n) ==> unknown_slots(us) <= n,
    ensures
        take_group(
            number,
            unknown_bytes(us) + (tag_bytes(number, WireType::EndGroup) + tail),
            depth,
            slots,
        ) == Ok::<(Seq<UnknownEntry>, Seq<u8>, Option<nat>), DecodeError>(
            (us, tail, spend_many(slots, unknown_slots(us))),
        ),
    decreases us,
{
    let close = tag_bytes(number, WireType::EndGroup) + tail;
    if us.len() == 0 {
        assert(unknown_bytes(us) + close =~= close);
        lemma_take_tag_bytes(number, WireType::EndGroup, tail);
        assert(us =~= Seq::<UnknownEntry>::empty());
    } else {
        let e = us[0];
        let more = us.subrange(1, us.len() as int);
        let rest = unknown_bytes(more) + close;
        let w = payload_wire(e.data);
        let s = unknown_bytes(us) + close;
        assert(s =~= tag_bytes(e.number, w) + (payload_bytes(e) + rest));
        assert(entry_sound(e));
        lemma_take_tag_bytes(e.number, w, payload_bytes(e) + rest);
        lemma_take_payload_bytes(e, rest, depth, slots);
        lemma_take_group_bytes(number, more, tail, depth, spend_many(slots, entry_slots(e)));
        lemma_take_tag(s);
        assert(seq![UnknownEntry { number: e.number, data: e.data }] + more =~= us);
    }
}

// ── The collection ──────────────────────────────────────────────────────────

/// An empty collection.
///
/// Calls `UnknownFields::new`, which holds no entries.
#[verifier::external_body]
pub(crate) fn no_unknown_fields() -> (r: UnknownFields)
    ensures
        unknown_entries(r) == Seq::<UnknownEntry>::empty(),
{
    UnknownFields::new()
}

/// A copy of a collection.
///
/// Calls the derived `UnknownFields::clone`, which copies every entry.
#[verifier::external_body]
pub(crate) fn copy_unknown_fields(fields: &UnknownFields) -> (r: UnknownFields)
    ensures
        unknown_entries(r) == unknown_entries(*fields),
{
    fields.clone()
}

/// The number of entries, not counting those inside groups.
///
/// Calls `UnknownFields::len`.
#[verifier::external_body]
pub(crate) fn count_unknown_fields(fields: &UnknownFields) -> (r: usize)
    ensures
        r == unknown_entries(*fields).len(),
{
    fields.len()
}

/// The encoded length of the entries.
///
/// Calls `UnknownFields::encoded_len`, which adds up, entry by entry, the
/// lengths of what `UnknownFields::write_to` writes.
#[verifier::external_body]
pub(crate) fn unknown_fields_len(fields: &UnknownFields) -> (r: usize)
    ensures
        r == unknown_bytes(unknown_entries(*fields)).len(),
{
    fields.encoded_len()
}

/// Appends the bytes of the entries.
///
/// Calls `UnknownFields::write_to`, which writes each entry in turn: its tag,
/// its payload in the wire type it came with, and for a group the closing tag.
#[verifier::external_body]
pub(crate) fn write_unknown_fields(fields: &UnknownFields, buf: &mut Vec<u8>)
    ensures
        final(buf)@ == old(buf)@ + unknown_bytes(unknown_entries(*fields)),
{
    fields.write_to(buf)
}

/// Adds a varint entry.
///
/// Calls `UnknownFields::push`, which appends the entry it is given.
#[verifier::external_body]
pub(crate) fn push_unknown_varint(fields: &mut UnknownFields, number: u32, value: u64)
    ensures
        unknown_entries(*final(fields)) == unknown_entries(*old(fields)).push(
            UnknownEntry { number, data: UnknownPayload::Varint(value) },
        ),
{
    fields.push(buffa::UnknownField { number, data: buffa::UnknownFieldData::Varint(value) })
}

/// Adds a length-delimited entry.
///
/// Calls `UnknownFields::push`, which appends the entry it is given.
#[verifier::external_body]
pub(crate) fn push_unknown_bytes(fields: &mut UnknownFields, number: u32, bytes: Vec<u8>)
    ensures
        unknown_entries(*final(fields)) == unknown_entries(*old(fields)).push(
            UnknownEntry { number, data: UnknownPayload::LengthDelimited(bytes@) },
        ),
{
    let data = buffa::UnknownFieldData::LengthDelimited(bytes);
    fields.push(buffa::UnknownField { number, data })
}

/// The tag of field `number` with the wire type that `wire` stands for.
pub open spec fn coded_tag(number: u32, wire: u32) -> Tag {
    Tag { field_number: number, wire_type: wire_of_code(wire as int)->Some_0 }
}

/// Reads the payload behind a tag and adds it as an entry; returns what is
/// left of the bytes and of the slots.
///
/// Calls `buffa::encoding::decode_unknown_field` and, where it succeeds,
/// `UnknownFields::push` with what it returned. The first takes a slot before
/// it reads, takes a level of depth for a group, and reads the fields of a
/// group in the same way up to the tag that closes it; a closing tag of another
/// number, or one outside a group, is an error.
#[verifier::external_body]
pub(crate) fn read_unknown_field<'a>(
    fields: &mut UnknownFields,
    number: u32,
    wire: u32,
    buf: &'a [u8],
    depth: u32,
    slots: usize,
) -> (r: Result<(&'a [u8], usize), DecodeError>)
    requires
        1 <= number <= MAX_FIELD_NUMBER,
        wire <= 5,
    ensures
        match take_payload(coded_tag(number, wire), buf@, depth as nat, Some(slots as nat)) {
            Ok(p) => {
                &&& unknown_entries(*final(fields)) == unknown_entries(*old(fields)).push(
                    UnknownEntry { number, data: p.0 },
                )
                &&& r is Ok
                &&& r->Ok_0.0@ == p.1
                &&& Some(r->Ok_0.1 as nat) == p.2
            },
            Err(e) => unknown_entries(*final(fields)) == unknown_entries(*old(fields)) && r is Err
                && r->Err_0 == e,
        },
{
    let (mut rest, left) = (buf, core::cell::Cell::new(slots));
    let ctx = DecodeContext::new(depth, &left);
    let tag = WireTypeCode::from_u32(wire).map(|w| encoding::Tag::new(number, w));
    match tag.and_then(|t| encoding::decode_unknown_field(t, &mut rest, ctx)) {
        Ok(f) => { fields.push(f); Ok((rest, left.get())) },
        Err(e) => Err(match e {
            OuterError::VarintTooLong => DecodeError::VarintTooLong,
            OuterError::InvalidWireType(w) => DecodeError::InvalidWireType(w),
            OuterError::InvalidFieldNumber => DecodeError::InvalidFieldNumber,
            OuterError::MessageTooLarge => DecodeError::MessageTooLarge,
            OuterError::RecursionLimitExceeded => DecodeError::RecursionLimitExceeded,
            OuterError::InvalidEndGroup(n) => DecodeError::InvalidEndGroup(n),
            OuterError::UnknownFieldLimitExceeded => DecodeError::UnknownFieldLimitExceeded,
            _ => DecodeError::UnexpectedEof }),
    }
}

/// Skips the payload behind a tag; returns what is left.
///
/// Calls `buffa::encoding::skip_field_depth`, which passes over what
/// `decode_unknown_field` would read, and counts depth but no slots.
#[verifier::external_body]
pub(crate) fn skip_field(number: u32, wire: u32, buf: &[u8], depth: u32) -> (r: Result<
    &[u8],
    DecodeError,
>)
    requires
        1 <= number <= MAX_FIELD_NUMBER,
        wire <= 5,
    ensures
        match skip_payload(coded_tag(number, wire), buf@, depth as nat) {
            Ok(rest) => r is Ok && r->Ok_0@ == rest,
            Err(e) => r is Err && r->Err_0 == e,
        },
{
    let mut rest = buf;
    let tag = WireTypeCode::from_u32(wire).map(|w| encoding::Tag::new(number, w));
    match tag.and_then(|t| encoding::skip_field_depth(t, &mut rest, depth)) {
        Ok(()) => Ok(rest),
        Err(e) => Err(match e {
            OuterError::VarintTooLong => DecodeError::VarintTooLong,
            OuterError::InvalidWireType(w) => DecodeError::InvalidWireType(w),
            OuterError::InvalidFieldNumber => DecodeError::InvalidFieldNumber,
            OuterError::MessageTooLarge => DecodeError::MessageTooLarge,
            OuterError::RecursionLimitExceeded => DecodeError::RecursionLimitExceeded,
            OuterError::InvalidEndGroup(n) => DecodeError::InvalidEndGroup(n),
            _ => DecodeError::UnexpectedEof,
        }),
    }
}

} // verus!
