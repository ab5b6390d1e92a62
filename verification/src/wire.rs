//! The protobuf wire format below the level of messages: varints, tags,
//! fixed-width integers, length-delimited payloads.
//!
//! Reading is described by functions from a byte sequence to the value at its
//! front and the bytes behind it; writing by the bytes that stand for a value.
use vstd::prelude::*;
use vstd::utf8::{decode_utf8, encode_utf8, valid_utf8};
use vstd::string::StringSliceAdditionalSpecFns;
use crate::text::{decimal, decimal_text, join2, join3};

verus! {

/// An error met while decoding wire bytes.
#[derive(Clone, Copy, Debug, PartialEq, Eq, Structural)]
pub enum DecodeError {
    /// The buffer ended before a complete value could be read.
    UnexpectedEof,
    /// A varint was longer than ten bytes.
    VarintTooLong,
    /// The wire type in a tag is none of the six that are defined.
    InvalidWireType(u32),
    /// The field number in a tag was zero, or the tag did not fit in 32 bits.
    InvalidFieldNumber,
    /// A length exceeds what the decoder accepts.
    MessageTooLarge,
    /// A field arrived with a wire type that cannot carry it.
    WireTypeMismatch { field_number: u32, expected: u8, actual: u8 },
    /// A string field held bytes that are not valid UTF-8.
    InvalidUtf8,
    /// Messages were nested deeper than the recursion limit.
    RecursionLimitExceeded,
    /// A group was closed by a tag of another field number.
    InvalidEndGroup(u32),
    /// More unknown fields arrived than the decoder keeps.
    UnknownFieldLimitExceeded,
    /// The elements of lists and maps outgrew their memory budget.
    ElementMemoryLimitExceeded,
}

/// An error met while encoding a message.
#[derive(Clone, Copy, Debug, PartialEq, Eq, Structural)]
pub enum EncodeError {
    /// The encoded size exceeds the 2 GiB protobuf limit.
    MessageTooLarge,
}

/// What a decode error is called.
pub open spec fn decode_error_text(e: DecodeError) -> Seq<char> {
    match e {
        DecodeError::UnexpectedEof => "unexpected end of buffer"@,
        DecodeError::VarintTooLong => "varint exceeded maximum length of 10 bytes"@,
        DecodeError::InvalidWireType(w) => "invalid wire type: "@ + decimal_text(w as nat),
        DecodeError::InvalidFieldNumber => "invalid field number"@,
        DecodeError::MessageTooLarge => "message length exceeds the size limit (2 GiB protobuf maximum, or a configured DecodeOptions limit)"@,
        DecodeError::WireTypeMismatch { field_number, expected, actual } => {
            "wire type mismatch on field "@ + decimal_text(field_number as nat) + ": expected "@
                + decimal_text(expected as nat) + ", got "@ + decimal_text(actual as nat)
        },
        DecodeError::InvalidUtf8 => "invalid UTF-8 in string field"@,
        DecodeError::RecursionLimitExceeded => "recursion limit exceeded"@,
        DecodeError::InvalidEndGroup(n) => "invalid end-group tag: field number "@ + decimal_text(
            n as nat,
        ),
        DecodeError::UnknownFieldLimitExceeded => "unknown field limit exceeded"@,
        DecodeError::ElementMemoryLimitExceeded => "element memory limit exceeded"@,
    }
}

impl DecodeError {
    /// What the error is called.
    pub fn text(&self) -> (r: String)
        ensures
            r@ == decode_error_text(*self),
    {
        match *self {
            DecodeError::UnexpectedEof => "unexpected end of buffer".to_owned(),
            DecodeError::VarintTooLong => "varint exceeded maximum length of 10 bytes".to_owned(),
            DecodeError::InvalidWireType(w) => join2(
                "invalid wire type: ",
                decimal(w as u64).as_str(),
            ),
            DecodeError::InvalidFieldNumber => "invalid field number".to_owned(),
            DecodeError::MessageTooLarge => "message length exceeds the size limit (2 GiB protobuf maximum, or a configured DecodeOptions limit)".to_owned(),
            DecodeError::WireTypeMismatch { field_number, expected, actual } => {
                let front = join3(
                    "wire type mismatch on field ",
                    decimal(field_number as u64).as_str(),
                    ": expected ",
                );
                let middle = join3(front.as_str(), decimal(expected as u64).as_str(), ", got ");
                join2(middle.as_str(), decimal(actual as u64).as_str())
            },
            DecodeError::InvalidUtf8 => "invalid UTF-8 in string field".to_owned(),
            DecodeError::RecursionLimitExceeded => "recursion limit exceeded".to_owned(),
            DecodeError::InvalidEndGroup(n) => join2(
                "invalid end-group tag: field number ",
                decimal(n as u64).as_str(),
            ),
            DecodeError::UnknownFieldLimitExceeded => "unknown field limit exceeded".to_owned(),
            DecodeError::ElementMemoryLimitExceeded => "element memory limit exceeded".to_owned(),
        }
    }
}

impl EncodeError {
    /// What the error is called.
    pub fn text(&self) -> (r: String)
        ensures
            r@ == "message encoded size exceeds the 2 GiB protobuf limit"@,
    {
        "message encoded size exceeds the 2 GiB protobuf limit".to_owned()
    }
}

/// The largest field number a tag can carry.
pub const MAX_FIELD_NUMBER: u32 = 0x1fff_ffff;

/// The largest encoded size of a message, in bytes.
pub const MAX_MESSAGE_BYTES: u32 = 0x7fff_ffff;

/// The six wire types.
#[derive(Clone, Copy, Debug, PartialEq, Eq, Structural)]
pub enum WireType {
    Varint,
    Fixed64,
    LengthDelimited,
    StartGroup,
    EndGroup,
    Fixed32,
}

/// A field number with the wire type of what follows it.
#[derive(Clone, Copy, Debug, PartialEq, Eq, Structural)]
pub struct Tag {
    pub field_number: u32,
    pub wire_type: WireType,
}

/// The three bits that stand for `w` in a tag.
pub open spec fn wire_code(w: WireType) -> u8 {
    match w {
        WireType::Varint => 0,
        WireType::Fixed64 => 1,
        WireType::LengthDelimited => 2,
        WireType::StartGroup => 3,
        WireType::EndGroup => 4,
        WireType::Fixed32 => 5,
    }
}

/// The wire type that `code` stands for.
pub open spec fn wire_of_code(code: int) -> Option<WireType> {
    if code == 0 {
        Some(WireType::Varint)
    } else if code == 1 {
        Some(WireType::Fixed64)
    } else if code == 2 {
        Some(WireType::LengthDelimited)
    } else if code == 3 {
        Some(WireType::StartGroup)
    } else if code == 4 {
        Some(WireType::EndGroup)
    } else if code == 5 {
        Some(WireType::Fixed32)
    } else {
        None
    }
}

impl WireType {
    /// The three bits that stand for this wire type in a tag.
    pub fn code(self) -> (r: u8)
        ensures
            r == wire_code(self),
            r <= 5,
    {
        match self {
            WireType::Varint => 0,
            WireType::Fixed64 => 1,
            WireType::LengthDelimited => 2,
            WireType::StartGroup => 3,
            WireType::EndGroup => 4,
            WireType::Fixed32 => 5,
        }
    }
}

/// `r` is the executable form of the reading `m`: the same value with the same
/// bytes behind it, or the same error.
pub open spec fn reads<T>(
    r: Result<(T, &[u8]), DecodeError>,
    m: Result<(T, Seq<u8>), DecodeError>,
) -> bool {
    match m {
        Ok(p) => r is Ok && r->Ok_0.0 == p.0 && r->Ok_0.1@ == p.1,
        Err(e) => r is Err && r->Err_0 == e,
    }
}

// ── Varints ─────────────────────────────────────────────────────────────────

/// The varint of `v`: seven bits to a byte, low bits first, the high bit of
/// every byte but the last set.
pub open spec fn varint_bytes(v: nat) -> Seq<u8>
    decreases v,
{
    if v < 128 {
        seq![v as u8]
    } else {
        seq![(v % 128 + 128) as u8] + varint_bytes(v / 128)
    }
}

/// The varint at the front of `s`, of which `k` bytes have been read before.
/// The tenth byte of a varint holds one bit.
pub open spec fn varint_from(s: Seq<u8>, k: nat) -> Result<(nat, Seq<u8>), DecodeError>
    decreases s.len(),
{
    if s.len() == 0 {
        Err(DecodeError::UnexpectedEof)
    } else if k >= 9 {
        if s[0] >= 2 {
            Err(DecodeError::VarintTooLong)
        } else {
            Ok((s[0] as nat, s.skip(1)))
        }
    } else if s[0] < 128 {
        Ok((s[0] as nat, s.skip(1)))
    } else {
        match varint_from(s.skip(1), k + 1) {
            Ok(p) => Ok(((s[0] - 128) as nat + 128 * p.0, p.1)),
            Err(e) => Err(e),
        }
    }
}

/// The varint at the front of `s`, and the bytes behind it.
pub open spec fn take_varint(s: Seq<u8>) -> Result<(u64, Seq<u8>), DecodeError> {
    match varint_from(s, 0) {
        Ok(p) => Ok((p.0 as u64, p.1)),
        Err(e) => Err(e),
    }
}

/// What a varint can hold whose first `k` bytes are taken away.
pub open spec fn varint_cap(k: nat) -> nat
    decreases 9 - k,
{
    if k >= 9 {
        2
    } else {
        128 * varint_cap(k + 1)
    }
}

pub proof fn lemma_varint_cap()
    ensures
        varint_cap(0) == 0x1_0000_0000_0000_0000,
{
    reveal_with_fuel(varint_cap, 11);
}

/// A varint that is read takes at least one byte, leaves a suffix, and fits.
pub proof fn lemma_varint_from(s: Seq<u8>, k: nat)
    requires
        k <= 9,
    ensures
        varint_from(s, k) matches Ok(p) ==> {
            &&& p.1.len() < s.len()
            &&& p.1 == s.skip(s.len() - p.1.len())
            &&& p.0 < varint_cap(k)
        },
    decreases s.len(),
{
    reveal_with_fuel(varint_cap, 2);
    if s.len() > 0 && k < 9 {
        lemma_varint_from(s.skip(1), k + 1);
        if let Ok(p) = varint_from(s.skip(1), k + 1) {
            assert(s.skip(1).skip(s.skip(1).len() - p.1.len()) =~= s.skip(s.len() - p.1.len()));
        }
        lemma_varint_cap_at_least(k + 1);
    }
}

proof fn lemma_varint_cap_at_least(k: nat)
    ensures
        varint_cap(k) >= 2,
    decreases 9 - k,
{
    if k < 9 {
        lemma_varint_cap_at_least(k + 1);
    }
}

/// Reading a varint takes at least one byte and leaves a suffix.
pub proof fn lemma_take_varint(s: Seq<u8>)
    ensures
        take_varint(s) matches Ok(p) ==> {
            &&& p.1.len() < s.len()
            &&& p.1 == s.skip(s.len() - p.1.len())
            &&& varint_from(s, 0) == Ok::<(nat, Seq<u8>), DecodeError>((p.0 as nat, p.1))
        },
{
    lemma_varint_from(s, 0);
    lemma_varint_cap();
}

proof fn lemma_varint_from_bytes(v: nat, k: nat, tail: Seq<u8>)
    requires
        k <= 9,
        v < varint_cap(k),
    ensures
        varint_from(varint_bytes(v) + tail, k) == Ok::<(nat, Seq<u8>), DecodeError>((v, tail)),
    decreases v,
{
    let s = varint_bytes(v) + tail;
    reveal_with_fuel(varint_cap, 2);
    if v < 128 {
        assert(s.skip(1) =~= tail);
        assert(s[0] == v as u8);
    } else {
        assert(k < 9);
        assert(s[0] == (v % 128 + 128) as u8);
        assert(s.skip(1) =~= varint_bytes(v / 128) + tail);
        lemma_varint_from_bytes(v / 128, k + 1, tail);
    }
}

/// Reading a varint gives back what was written.
pub proof fn lemma_take_varint_bytes(v: u64, tail: Seq<u8>)
    ensures
        take_varint(varint_bytes(v as nat) + tail) == Ok::<(u64, Seq<u8>), DecodeError>((v, tail)),
{
    lemma_varint_cap();
    lemma_varint_from_bytes(v as nat, 0, tail);
}

proof fn lemma_varint_bytes_len_from(v: nat, k: nat)
    requires
        k <= 9,
        v < varint_cap(k),
    ensures
        1 <= varint_bytes(v).len() <= 10 - k,
    decreases v,
{
    reveal_with_fuel(varint_cap, 2);
    if v >= 128 {
        assert(k < 9);
        lemma_varint_bytes_len_from(v / 128, k + 1);
    }
}

/// A varint of 64 bits has one to ten bytes.
pub proof fn lemma_varint_bytes_len(v: u64)
    ensures
        1 <= varint_bytes(v as nat).len() <= 10,
{
    lemma_varint_cap();
    lemma_varint_bytes_len_from(v as nat, 0);
}

/// Reads one varint.
///
/// Calls `buffa::encoding::decode_varint` on the slice. It takes bytes up to
/// the first whose high bit is clear; the tenth byte must be 0 or 1, else the
/// varint is too long; a slice that ends before that is an end of input.
#[verifier::external_body]
pub(crate) fn read_varint(buf: &[u8]) -> (r: Result<(u64, &[u8]), DecodeError>)
    ensures
        reads(r, take_varint(buf@)),
{
    let mut rest = buf;
    match buffa::encoding::decode_varint(&mut rest) {
        Ok(v) => Ok((v, rest)),
        Err(buffa::DecodeError::VarintTooLong) => Err(DecodeError::VarintTooLong),
        Err(_) => Err(DecodeError::UnexpectedEof),
    }
}

/// Appends the varint of `v`.
///
/// Calls `buffa::encoding::encode_varint`, which writes seven bits at a time,
/// low bits first, and sets the high bit of every byte but the last.
#[verifier::external_body]
pub(crate) fn write_varint(v: u64, buf: &mut Vec<u8>)
    ensures
        final(buf)@ == old(buf)@ + varint_bytes(v as nat),
{
    buffa::encoding::encode_varint(v, buf)
}

/// The length of the varint of `v`.
///
/// Calls `buffa::types::uint64_encoded_len`, which counts the significant bits
/// of `v` in groups of seven, and at least one group.
#[verifier::external_body]
pub(crate) fn varint_len(v: u64) -> (r: usize)
    ensures
        r == varint_bytes(v as nat).len(),
{
    buffa::types::uint64_encoded_len(v)
}

// ── Tags ────────────────────────────────────────────────────────────────────

/// The bytes of a tag: the varint of the field number and, in its low three
/// bits, the wire type.
pub open spec fn tag_bytes(number: u32, w: WireType) -> Seq<u8> {
    varint_bytes((number as nat) * 8 + wire_code(w) as nat)
}

/// The tag at the front of `s`, and the bytes behind it.
pub open spec fn take_tag(s: Seq<u8>) -> Result<(Tag, Seq<u8>), DecodeError> {
    match take_varint(s) {
        Err(e) => Err(e),
        Ok(p) => if p.0 > u32::MAX {
            Err(DecodeError::InvalidFieldNumber)
        } else {
            match wire_of_code((p.0 % 8) as int) {
                None => Err(DecodeError::InvalidWireType((p.0 % 8) as u32)),
                Some(w) => if p.0 / 8 == 0 {
                    Err(DecodeError::InvalidFieldNumber)
                } else {
                    Ok((Tag { field_number: (p.0 / 8) as u32, wire_type: w }, p.1))
                },
            }
        },
    }
}

/// A tag that is read takes at least one byte, leaves a suffix, and carries a
/// field number that a tag can be written for.
pub proof fn lemma_take_tag(s: Seq<u8>)
    ensures
        take_tag(s) matches Ok(p) ==> {
            &&& p.1.len() < s.len()
            &&& p.1 == s.skip(s.len() - p.1.len())
            &&& 1 <= p.0.field_number <= MAX_FIELD_NUMBER
        },
{
    lemma_take_varint(s);
}

/// Reading a tag gives back what was written.
pub proof fn lemma_take_tag_bytes(number: u32, w: WireType, tail: Seq<u8>)
    requires
        1 <= number <= MAX_FIELD_NUMBER,
    ensures
        take_tag(tag_bytes(number, w) + tail) == Ok::<(Tag, Seq<u8>), DecodeError>(
            (Tag { field_number: number, wire_type: w }, tail),
        ),
{
    lemma_take_varint_bytes((number * 8 + wire_code(w)) as u64, tail);
}

/// Reads one tag.
pub fn read_tag(buf: &[u8]) -> (r: Result<(Tag, &[u8]), DecodeError>)
    ensures
        reads(r, take_tag(buf@)),
{
    let (v, rest) = match read_varint(buf) {
        Ok(p) => p,
        Err(e) => return Err(e),
    };
    if v > 0xffff_ffff {
        return Err(DecodeError::InvalidFieldNumber);
    }
    let code: u64 = v % 8;
    let wire_type = if code == 0 {
        WireType::Varint
    } else if code == 1 {
        WireType::Fixed64
    } else if code == 2 {
        WireType::LengthDelimited
    } else if code == 3 {
        WireType::StartGroup
    } else if code == 4 {
        WireType::EndGroup
    } else if code == 5 {
        WireType::Fixed32
    } else {
        return Err(DecodeError::InvalidWireType(code as u32));
    };
    if v / 8 == 0 {
        return Err(DecodeError::InvalidFieldNumber);
    }
    Ok((Tag { field_number: (v / 8) as u32, wire_type }, rest))
}

/// Appends a tag.
pub fn write_tag(number: u32, w: WireType, buf: &mut Vec<u8>)
    requires
        1 <= number <= MAX_FIELD_NUMBER,
    ensures
        final(buf)@ == old(buf)@ + tag_bytes(number, w),
{
    write_varint(number as u64 * 8 + w.code() as u64, buf);
}

/// The encoded length of a tag.
pub fn tag_len(field_number: u32, wt: WireType) -> (r: usize)
    ensures
        r == tag_bytes(field_number, wt).len(),
        1 <= r <= 10,
{
    proof {
        lemma_varint_bytes_len((field_number * 8 + wire_code(wt)) as u64);
    }
    varint_len(field_number as u64 * 8 + wt.code() as u64)
}

// ── Length-delimited payloads ───────────────────────────────────────────────

/// The payload `b` behind its length.
pub open spec fn delimited_bytes(b: Seq<u8>) -> Seq<u8> {
    varint_bytes(b.len()) + b
}

/// The length-delimited payload at the front of `s`, and the bytes behind it.
pub open spec fn take_delimited(s: Seq<u8>) -> Result<(Seq<u8>, Seq<u8>), DecodeError> {
    match take_varint(s) {
        Err(e) => Err(e),
        Ok(p) => if p.0 > usize::MAX {
            Err(DecodeError::MessageTooLarge)
        } else if p.1.len() < p.0 {
            Err(DecodeError::UnexpectedEof)
        } else {
            Ok((p.1.take(p.0 as int), p.1.skip(p.0 as int)))
        },
    }
}

/// A payload that is read is shorter than the input and leaves a suffix.
pub proof fn lemma_take_delimited(s: Seq<u8>)
    ensures
        take_delimited(s) matches Ok(p) ==> {
            &&& p.0.len() < s.len()
            &&& p.1.len() < s.len()
            &&& p.1 == s.skip(s.len() - p.1.len())
        },
{
    lemma_take_varint(s);
    if let Ok(p) = take_varint(s) {
        if p.0 <= p.1.len() {
            assert(p.1.skip(p.0 as int) =~= s.skip(s.len() - p.1.len() + p.0));
        }
    }
}

/// Reading a payload gives back what was written.
pub proof fn lemma_take_delimited_bytes(b: Seq<u8>, tail: Seq<u8>)
    requires
        b.len() <= usize::MAX,
    ensures
        take_delimited(delimited_bytes(b) + tail) == Ok::<(Seq<u8>, Seq<u8>), DecodeError>(
            (b, tail),
        ),
{
    assert(delimited_bytes(b) + tail =~= varint_bytes(b.len()) + (b + tail));
    lemma_take_varint_bytes(b.len() as u64, b + tail);
    assert((b + tail).take(b.len() as int) =~= b);
    assert((b + tail).skip(b.len() as int) =~= tail);
}

/// Reads one length-delimited payload.
pub fn read_delimited(buf: &[u8]) -> (r: Result<(&[u8], &[u8]), DecodeError>)
    ensures
        match take_delimited(buf@) {
            Ok(p) => r is Ok && r->Ok_0.0@ == p.0 && r->Ok_0.1@ == p.1,
            Err(e) => r is Err && r->Err_0 == e,
        },
{
    let (len, rest) = match read_varint(buf) {
        Ok(p) => p,
        Err(e) => return Err(e),
    };
    if len > usize::MAX as u64 {
        return Err(DecodeError::MessageTooLarge);
    }
    let len = len as usize;
    if rest.len() < len {
        return Err(DecodeError::UnexpectedEof);
    }
    let (payload, tail) = rest.split_at(len);
    assert(payload@ =~= rest@.take(len as int));
    assert(tail@ =~= rest@.skip(len as int));
    Ok((payload, tail))
}

/// Appends the bytes of `src`.
pub fn append_bytes(src: &[u8], buf: &mut Vec<u8>)
    ensures
        final(buf)@ == old(buf)@ + src@,
{
    let ghost before = buf@;
    let mut i: usize = 0;
    while i < src.len()
        invariant
            i <= src@.len(),
            buf@ == before + src@.take(i as int),
        decreases src@.len() - i,
    {
        buf.push(src[i]);
        i = i + 1;
        assert(src@.take(i as int) =~= src@.take(i - 1).push(src@[i - 1]));
    }
    assert(src@.take(src@.len() as int) =~= src@);
}

/// Appends the payload `b` behind its length.
pub fn write_delimited(b: &[u8], buf: &mut Vec<u8>)
    ensures
        final(buf)@ == old(buf)@ + delimited_bytes(b@),
{
    let ghost before = buf@;
    write_varint(b.len() as u64, buf);
    append_bytes(b, buf);
    assert(buf@ =~= before + delimited_bytes(b@));
}

/// The string at the front of `s`: a length-delimited payload of valid UTF-8.
pub open spec fn take_string(s: Seq<u8>) -> Result<(Seq<char>, Seq<u8>), DecodeError> {
    match take_delimited(s) {
        Err(e) => Err(e),
        Ok(p) => if valid_utf8(p.0) {
            Ok((decode_utf8(p.0), p.1))
        } else {
            Err(DecodeError::InvalidUtf8)
        },
    }
}

/// Reads one string.
///
/// Calls `buffa::types::decode_string`: a varint length, then that many bytes,
/// which must be valid UTF-8. A length over `usize` is too large, and one over
/// what is left is an end of input.
#[verifier::external_body]
pub(crate) fn read_string(buf: &[u8]) -> (r: Result<(String, &[u8]), DecodeError>)
    ensures
        match take_string(buf@) {
            Ok(p) => r is Ok && r->Ok_0.0@ == p.0 && r->Ok_0.1@ == p.1,
            Err(e) => r is Err && r->Err_0 == e,
        },
{
    let mut rest = buf;
    match buffa::types::decode_string(&mut rest) {
        Ok(s) => Ok((s, rest)),
        Err(buffa::DecodeError::VarintTooLong) => Err(DecodeError::VarintTooLong),
        Err(buffa::DecodeError::MessageTooLarge) => Err(DecodeError::MessageTooLarge),
        Err(buffa::DecodeError::InvalidUtf8) => Err(DecodeError::InvalidUtf8),
        Err(_) => Err(DecodeError::UnexpectedEof),
    }
}

/// Appends a string behind its length in bytes.
pub fn write_string(s: &str, buf: &mut Vec<u8>)
    ensures
        final(buf)@ == old(buf)@ + delimited_bytes(encode_utf8(s@)),
{
    write_delimited(s.as_bytes(), buf);
}

/// Reading a string gives back what was written.
pub proof fn lemma_take_string_bytes(s: Seq<char>, tail: Seq<u8>)
    requires
        encode_utf8(s).len() <= usize::MAX,
    ensures
        take_string(delimited_bytes(encode_utf8(s)) + tail) == Ok::<
            (Seq<char>, Seq<u8>),
            DecodeError,
        >((s, tail)),
{
    lemma_take_delimited_bytes(encode_utf8(s), tail);
    vstd::utf8::encode_utf8_valid_utf8(s);
    vstd::utf8::encode_utf8_decode_utf8(s);
}

// ── Fixed-width integers ────────────────────────────────────────────────────

/// The low `n` bytes of `v`, low byte first.
pub open spec fn le_bytes(v: nat, n: nat) -> Seq<u8>
    decreases n,
{
    if n == 0 {
        Seq::empty()
    } else {
        seq![(v % 256) as u8] + le_bytes(v / 256, (n - 1) as nat)
    }
}

/// The number whose bytes, low byte first, are `s`.
pub open spec fn le_value(s: Seq<u8>) -> nat
    decreases s.len(),
{
    if s.len() == 0 {
        0
    } else {
        s[0] as nat + 256 * le_value(s.skip(1))
    }
}

/// The fixed-width number of `n` bytes at the front of `s`.
pub open spec fn take_fixed(s: Seq<u8>, n: nat) -> Result<(nat, Seq<u8>), DecodeError> {
    if s.len() < n {
        Err(DecodeError::UnexpectedEof)
    } else {
        Ok((le_value(s.take(n as int)), s.skip(n as int)))
    }
}

/// What `n` bytes can hold.
pub open spec fn byte_cap(n: nat) -> nat
    decreases n,
{
    if n == 0 {
        1
    } else {
        256 * byte_cap((n - 1) as nat)
    }
}

proof fn lemma_byte_cap()
    ensures
        byte_cap(4) == 0x1_0000_0000,
        byte_cap(8) == 0x1_0000_0000_0000_0000,
{
    reveal_with_fuel(byte_cap, 9);
}

proof fn lemma_le_value_bound(s: Seq<u8>)
    ensures
        le_value(s) < byte_cap(s.len()),
    decreases s.len(),
{
    if s.len() > 0 {
        lemma_le_value_bound(s.skip(1));
    }
}

proof fn lemma_le_round_trip(v: nat, n: nat)
    requires
        v < byte_cap(n),
    ensures
        le_bytes(v, n).len() == n,
        le_value(le_bytes(v, n)) == v,
    decreases n,
{
    if n > 0 {
        lemma_le_round_trip(v / 256, (n - 1) as nat);
        assert(le_bytes(v, n).skip(1) =~= le_bytes(v / 256, (n - 1) as nat));
    }
}

/// The bytes of a number are as many as asked for.
pub proof fn lemma_le_bytes_len(v: nat, n: nat)
    ensures
        le_bytes(v, n).len() == n,
    decreases n,
{
    if n > 0 {
        lemma_le_bytes_len(v / 256, (n - 1) as nat);
    }
}

/// A fixed-width number that is read fits its width and leaves a suffix.
pub proof fn lemma_take_fixed(s: Seq<u8>)
    ensures
        take_fixed(s, 4) matches Ok(p) ==> p.0 <= u32::MAX && p.1 == s.skip(4) && s.len() >= 4,
        take_fixed(s, 8) matches Ok(p) ==> p.0 <= u64::MAX && p.1 == s.skip(8) && s.len() >= 8,
{
    lemma_byte_cap();
    if s.len() >= 4 {
        lemma_le_value_bound(s.take(4));
    }
    if s.len() >= 8 {
        lemma_le_value_bound(s.take(8));
    }
}

/// Reading a fixed-width number gives back what was written.
pub proof fn lemma_take_fixed_bytes(v: nat, tail: Seq<u8>)
    ensures
        v <= u32::MAX ==> take_fixed(le_bytes(v, 4) + tail, 4) == Ok::<
            (nat, Seq<u8>),
            DecodeError,
        >((v, tail)),
        v <= u64::MAX ==> take_fixed(le_bytes(v, 8) + tail, 8) == Ok::<
            (nat, Seq<u8>),
            DecodeError,
        >((v, tail)),
{
    lemma_byte_cap();
    lemma_le_bytes_len(v, 4);
    lemma_le_bytes_len(v, 8);
    if v <= u32::MAX {
        lemma_le_round_trip(v, 4);
        assert((le_bytes(v, 4) + tail).take(4) =~= le_bytes(v, 4));
        assert((le_bytes(v, 4) + tail).skip(4) =~= tail);
    }
    if v <= u64::MAX {
        lemma_le_round_trip(v, 8);
        assert((le_bytes(v, 8) + tail).take(8) =~= le_bytes(v, 8));
        assert((le_bytes(v, 8) + tail).skip(8) =~= tail);
    }
}

/// Reads four bytes, low byte first.
pub fn read_fixed32(buf: &[u8]) -> (r: Result<(u32, &[u8]), DecodeError>)
    ensures
        match take_fixed(buf@, 4) {
            Ok(p) => r is Ok && r->Ok_0.0 == p.0 && r->Ok_0.1@ == p.1,
            Err(e) => r is Err && r->Err_0 == e,
        },
{
    if buf.len() < 4 {
        return Err(DecodeError::UnexpectedEof);
    }
    let (head, tail) = buf.split_at(4);
    let v: u32 = head[0] as u32 + 256 * (head[1] as u32 + 256 * (head[2] as u32 + 256 * (
    head[3] as u32)));
    proof {
        reveal_with_fuel(le_value, 5);
        assert(head@ =~= buf@.take(4));
        assert(tail@ =~= buf@.skip(4));
        assert(head@.skip(1).skip(1) =~= head@.skip(2));
        assert(head@.skip(2).skip(1) =~= head@.skip(3));
        assert(head@.skip(3).skip(1).len() == 0);
    }
    Ok((v, tail))
}

/// Reads eight bytes, low byte first.
pub fn read_fixed64(buf: &[u8]) -> (r: Result<(u64, &[u8]), DecodeError>)
    ensures
        match take_fixed(buf@, 8) {
            Ok(p) => r is Ok && r->Ok_0.0 == p.0 && r->Ok_0.1@ == p.1,
            Err(e) => r is Err && r->Err_0 == e,
        },
{
    if buf.len() < 8 {
        return Err(DecodeError::UnexpectedEof);
    }
    let (head, tail) = buf.split_at(8);
    let mut v: u64 = 0;
    let mut i: usize = 8;
    proof {
        lemma_byte_cap();
        assert(head@ =~= buf@.take(8));
        assert(tail@ =~= buf@.skip(8));
        assert(head@.skip(8).len() == 0);
    }
    while i > 0
        invariant
            i <= 8,
            head@.len() == 8,
            v == le_value(head@.skip(i as int)),
            v < byte_cap((8 - i) as nat),
            byte_cap(8) == 0x1_0000_0000_0000_0000,
        decreases i,
    {
        i = i - 1;
        proof {
            assert(head@.skip(i as int).skip(1) =~= head@.skip(i + 1));
            lemma_le_value_bound(head@.skip(i as int));
            lemma_byte_cap_monotonic((8 - i) as nat, 8);
        }
        v = head[i] as u64 + 256 * v;
    }
    assert(head@.skip(0) =~= head@);
    Ok((v, tail))
}

proof fn lemma_byte_cap_monotonic(a: nat, b: nat)
    requires
        a <= b,
    ensures
        byte_cap(a) <= byte_cap(b),
    decreases b,
{
    if a < b {
        lemma_byte_cap_monotonic(a, (b - 1) as nat);
    }
}

/// Appends the low `n` bytes of `v`, low byte first.
fn write_le(v: u64, n: usize, buf: &mut Vec<u8>)
    ensures
        final(buf)@ == old(buf)@ + le_bytes(v as nat, n as nat),
{
    let ghost before = buf@;
    let mut left: u64 = v;
    let mut i: usize = n;
    assert(buf@ + le_bytes(left as nat, i as nat) =~= before + le_bytes(v as nat, n as nat));
    while i > 0
        invariant
            i <= n,
            buf@ + le_bytes(left as nat, i as nat) == before + le_bytes(v as nat, n as nat),
        decreases i,
    {
        let ghost was = buf@;
        let ghost tail = le_bytes((left / 256) as nat, (i - 1) as nat);
        buf.push((left % 256) as u8);
        assert(was + (seq![(left % 256) as u8] + tail) =~= buf@ + tail);
        left = left / 256;
        i = i - 1;
    }
    assert(buf@ + Seq::<u8>::empty() =~= buf@);
}

/// Appends four bytes, low byte first.
pub fn write_fixed32(v: u32, buf: &mut Vec<u8>)
    ensures
        final(buf)@ == old(buf)@ + le_bytes(v as nat, 4),
{
    write_le(v as u64, 4, buf);
}

/// Appends eight bytes, low byte first.
pub fn write_fixed64(v: u64, buf: &mut Vec<u8>)
    ensures
        final(buf)@ == old(buf)@ + le_bytes(v as nat, 8),
{
    write_le(v, 8, buf);
}

// ── Signed integers in unsigned clothes ─────────────────────────────────────

/// The 64-bit two's complement of `n`, which is what a negative `int32`,
/// `int64` or enum number becomes before it is written as a varint.
pub open spec fn wrap64(n: int) -> nat {
    if n < 0 {
        (n + 0x1_0000_0000_0000_0000) as nat
    } else {
        n as nat
    }
}

/// The number whose 64-bit two's complement is `v`.
pub open spec fn signed64(v: nat) -> int {
    if v < 0x8000_0000_0000_0000 {
        v as int
    } else {
        v - 0x1_0000_0000_0000_0000
    }
}

/// The number whose 32-bit two's complement is the low half of `v`.
pub open spec fn signed32(v: nat) -> int {
    let low = v % 0x1_0000_0000;
    if low < 0x8000_0000 {
        low as int
    } else {
        low - 0x1_0000_0000
    }
}

/// The 32-bit two's complement of `n`.
pub open spec fn wrap32(n: int) -> nat {
    if n < 0 {
        (n + 0x1_0000_0000) as nat
    } else {
        n as nat
    }
}

/// The ZigZag number of `n`: 0, -1, 1, -2, 2 become 0, 1, 2, 3, 4.
pub open spec fn zigzag(n: int) -> nat {
    if n < 0 {
        (-2 * n - 1) as nat
    } else {
        (2 * n) as nat
    }
}

/// The number whose ZigZag number is `v`.
pub open spec fn unzigzag(v: nat) -> int {
    if v % 2 == 0 {
        (v / 2) as int
    } else {
        -((v / 2) as int) - 1
    }
}

/// The 64-bit two's complement of `n`.
pub fn to_wrapped64(n: i64) -> (r: u64)
    ensures
        r == wrap64(n as int),
{
    if n < 0 {
        u64::MAX - (-(n + 1)) as u64
    } else {
        n as u64
    }
}

/// The 32-bit two's complement of `n`.
pub fn to_wrapped32(n: i32) -> (r: u32)
    ensures
        r == wrap32(n as int),
{
    if n < 0 {
        u32::MAX - (-(n + 1)) as u32
    } else {
        n as u32
    }
}

/// The number whose 64-bit two's complement is `v`.
pub fn from_wrapped64(v: u64) -> (r: i64)
    ensures
        r == signed64(v as nat),
{
    if v < 0x8000_0000_0000_0000 {
        v as i64
    } else {
        -((u64::MAX - v) as i64) - 1
    }
}

/// The number whose 32-bit two's complement is the low half of `v`.
pub fn from_wrapped32(v: u64) -> (r: i32)
    ensures
        r == signed32(v as nat),
{
    let low: u64 = v % 0x1_0000_0000;
    if low < 0x8000_0000 {
        low as i32
    } else {
        (low as i64 - 0x1_0000_0000) as i32
    }
}

/// The ZigZag number of `n`.
pub fn to_zigzag64(n: i64) -> (r: u64)
    ensures
        r == zigzag(n as int),
{
    if n < 0 {
        (-(n + 1)) as u64 * 2 + 1
    } else {
        n as u64 * 2
    }
}

/// The number whose ZigZag number is `v`.
pub fn from_zigzag64(v: u64) -> (r: i64)
    ensures
        r == unzigzag(v as nat),
{
    if v % 2 == 0 {
        (v / 2) as i64
    } else {
        -((v / 2) as i64) - 1
    }
}

/// The number whose ZigZag number is the low half of `v`.
pub fn from_zigzag32(v: u64) -> (r: i32)
    ensures
        r == unzigzag(v as nat % 0x1_0000_0000),
{
    let low: u64 = v % 0x1_0000_0000;
    if low % 2 == 0 {
        (low / 2) as i32
    } else {
        (-((low / 2) as i64) - 1) as i32
    }
}

} // verus!
