//! Scalars on the wire: their wire types, bytes, lengths and defaults.
use vstd::prelude::*;
use vstd::string::StringSliceAdditionalSpecFns;
use vstd::utf8::encode_utf8;
use crate::descriptor::{FieldKind, ScalarType, SingularKind};
use crate::shape::{key_fits, scalar_fits};
use crate::value::{KeyModel, MapKey, Value, ValueModel};
use crate::wire::{
    delimited_bytes, from_wrapped32, from_wrapped64, from_zigzag32, from_zigzag64, le_bytes,
    lemma_le_bytes_len, lemma_take_delimited, lemma_take_delimited_bytes, lemma_take_fixed,
    lemma_take_fixed_bytes, lemma_take_string_bytes, lemma_take_varint, lemma_take_varint_bytes,
    lemma_varint_bytes_len, read_delimited, read_fixed32, read_fixed64, read_string, read_varint,
    signed32, signed64, take_delimited, take_fixed, take_string, take_varint, to_wrapped32,
    to_wrapped64, to_zigzag64, unzigzag, varint_bytes, varint_len, wire_code, wrap32, wrap64,
    write_delimited, write_fixed32, write_fixed64, write_string, write_varint, zigzag, DecodeError,
    Tag, WireType,
};

verus! {

// ── Wire types ──────────────────────────────────────────────────────────────

/// The wire type of a scalar type.
pub open spec fn scalar_wire(s: ScalarType) -> WireType {
    match s {
        ScalarType::Double | ScalarType::Fixed64 | ScalarType::Sfixed64 => WireType::Fixed64,
        ScalarType::Float | ScalarType::Fixed32 | ScalarType::Sfixed32 => WireType::Fixed32,
        ScalarType::String | ScalarType::Bytes => WireType::LengthDelimited,
        _ => WireType::Varint,
    }
}

/// The wire type of an element; `delimited` has messages written as groups.
pub open spec fn element_wire(kind: SingularKind, delimited: bool) -> WireType {
    match kind {
        SingularKind::Scalar(s) => scalar_wire(s),
        SingularKind::Enum(_) => WireType::Varint,
        SingularKind::Message(_) => if delimited {
            WireType::StartGroup
        } else {
            WireType::LengthDelimited
        },
    }
}

/// The wire type of a map key.
pub open spec fn key_wire(s: ScalarType) -> WireType {
    match s {
        ScalarType::Fixed32 | ScalarType::Sfixed32 => WireType::Fixed32,
        ScalarType::Fixed64 | ScalarType::Sfixed64 => WireType::Fixed64,
        ScalarType::String => WireType::LengthDelimited,
        _ => WireType::Varint,
    }
}

/// Lists of such elements can be packed.
pub open spec fn packable(kind: SingularKind) -> bool {
    match kind {
        SingularKind::Scalar(s) => s != ScalarType::String && s != ScalarType::Bytes,
        SingularKind::Enum(_) => true,
        SingularKind::Message(_) => false,
    }
}

/// A field of the kind may arrive with the wire type: messages in either form,
/// lists packed or element by element, map entries as payloads.
pub open spec fn wire_admits(kind: FieldKind, actual: WireType) -> bool {
    match kind {
        FieldKind::Singular(SingularKind::Message(_)) | FieldKind::List(
            SingularKind::Message(_),
        ) => actual == WireType::LengthDelimited || actual == WireType::StartGroup,
        FieldKind::Singular(k) => actual == element_wire(k, false),
        FieldKind::List(k) => actual == WireType::LengthDelimited || actual == element_wire(
            k,
            false,
        ),
        FieldKind::Mapping { key, value } => actual == WireType::LengthDelimited,
    }
}

/// The wire type of an element.
pub fn singular_wire_type(kind: SingularKind, delimited: bool) -> (r: WireType)
    ensures
        r == element_wire(kind, delimited),
{
    match kind {
        SingularKind::Scalar(s) => match s {
            ScalarType::Double | ScalarType::Fixed64 | ScalarType::Sfixed64 => WireType::Fixed64,
            ScalarType::Float | ScalarType::Fixed32 | ScalarType::Sfixed32 => WireType::Fixed32,
            ScalarType::String | ScalarType::Bytes => WireType::LengthDelimited,
            _ => WireType::Varint,
        },
        SingularKind::Enum(_) => WireType::Varint,
        SingularKind::Message(_) => if delimited {
            WireType::StartGroup
        } else {
            WireType::LengthDelimited
        },
    }
}

/// The wire type of a map key.
pub fn map_key_wire_type(s: ScalarType) -> (r: WireType)
    ensures
        r == key_wire(s),
{
    match s {
        ScalarType::Fixed32 | ScalarType::Sfixed32 => WireType::Fixed32,
        ScalarType::Fixed64 | ScalarType::Sfixed64 => WireType::Fixed64,
        ScalarType::String => WireType::LengthDelimited,
        _ => WireType::Varint,
    }
}

/// Whether lists of such elements can be packed.
pub fn is_packable(kind: SingularKind) -> (r: bool)
    ensures
        r == packable(kind),
{
    match kind {
        SingularKind::Scalar(s) => !matches!(s, ScalarType::String | ScalarType::Bytes),
        SingularKind::Enum(_) => true,
        SingularKind::Message(_) => false,
    }
}

/// Whether a field of the kind may arrive with the wire type. A field that
/// arrives with another one is an unknown field.
pub fn wire_type_compatible(kind: FieldKind, actual: WireType) -> (r: bool)
    ensures
        r == wire_admits(kind, actual),
{
    match kind {
        FieldKind::Singular(SingularKind::Message(_)) => matches!(
            actual,
            WireType::LengthDelimited | WireType::StartGroup
        ),
        FieldKind::Singular(k) => actual == singular_wire_type(k, false),
        FieldKind::List(SingularKind::Message(_)) => matches!(
            actual,
            WireType::LengthDelimited | WireType::StartGroup
        ),
        FieldKind::List(k) => actual == WireType::LengthDelimited || actual == singular_wire_type(
            k,
            false,
        ),
        FieldKind::Mapping { key, value } => actual == WireType::LengthDelimited,
    }
}

// ── Bytes ───────────────────────────────────────────────────────────────────

/// The bytes of an enum number, and of an `int32`.
pub open spec fn int32_bytes(n: i32) -> Seq<u8> {
    varint_bytes(wrap64(n as int))
}

/// The bytes of a scalar; none where the value is not of the type.
pub open spec fn scalar_bytes(s: ScalarType, v: ValueModel) -> Seq<u8> {
    match (s, v) {
        (ScalarType::Double, ValueModel::F64(x)) => le_bytes(x as nat, 8),
        (ScalarType::Float, ValueModel::F32(x)) => le_bytes(x as nat, 4),
        (ScalarType::Int64, ValueModel::I64(x)) => varint_bytes(wrap64(x as int)),
        (ScalarType::Uint64, ValueModel::U64(x)) => varint_bytes(x as nat),
        (ScalarType::Int32, ValueModel::I32(x)) => int32_bytes(x),
        (ScalarType::Fixed64, ValueModel::U64(x)) => le_bytes(x as nat, 8),
        (ScalarType::Fixed32, ValueModel::U32(x)) => le_bytes(x as nat, 4),
        (ScalarType::Bool, ValueModel::Bool(x)) => if x {
            varint_bytes(1)
        } else {
            varint_bytes(0)
        },
        (ScalarType::String, ValueModel::Text(x)) => delimited_bytes(encode_utf8(x)),
        (ScalarType::Bytes, ValueModel::Bytes(x)) => delimited_bytes(x),
        (ScalarType::Uint32, ValueModel::U32(x)) => varint_bytes(x as nat),
        (ScalarType::Sfixed32, ValueModel::I32(x)) => le_bytes(wrap32(x as int), 4),
        (ScalarType::Sfixed64, ValueModel::I64(x)) => le_bytes(wrap64(x as int), 8),
        (ScalarType::Sint32, ValueModel::I32(x)) => varint_bytes(zigzag(x as int)),
        (ScalarType::Sint64, ValueModel::I64(x)) => varint_bytes(zigzag(x as int)),
        _ => Seq::empty(),
    }
}

/// The value that a map key is.
pub open spec fn key_value(k: KeyModel) -> ValueModel {
    match k {
        KeyModel::Bool(x) => ValueModel::Bool(x),
        KeyModel::I32(x) => ValueModel::I32(x),
        KeyModel::I64(x) => ValueModel::I64(x),
        KeyModel::U32(x) => ValueModel::U32(x),
        KeyModel::U64(x) => ValueModel::U64(x),
        KeyModel::Text(x) => ValueModel::Text(x),
    }
}

/// The map key that a value is.
pub open spec fn value_key(v: ValueModel) -> KeyModel {
    match v {
        ValueModel::Bool(x) => KeyModel::Bool(x),
        ValueModel::I32(x) => KeyModel::I32(x),
        ValueModel::I64(x) => KeyModel::I64(x),
        ValueModel::U32(x) => KeyModel::U32(x),
        ValueModel::U64(x) => KeyModel::U64(x),
        ValueModel::Text(x) => KeyModel::Text(x),
        _ => KeyModel::Bool(false),
    }
}

/// The bytes of a map key; none where the key is not of the type.
pub open spec fn key_bytes(s: ScalarType, k: KeyModel) -> Seq<u8> {
    scalar_bytes(s, key_value(k))
}

/// The enum number, or `int32`, at the front of `s`.
pub open spec fn take_int32(s: Seq<u8>) -> Result<(i32, Seq<u8>), DecodeError> {
    match take_varint(s) {
        Ok(p) => Ok((signed32(p.0 as nat) as i32, p.1)),
        Err(e) => Err(e),
    }
}

/// What a varint is worth as a scalar of the type. The upper half is dropped
/// for the types of 32 bits.
pub open spec fn varint_value(s: ScalarType, v: u64) -> ValueModel {
    match s {
        ScalarType::Int64 => ValueModel::I64(signed64(v as nat) as i64),
        ScalarType::Uint64 => ValueModel::U64(v),
        ScalarType::Int32 => ValueModel::I32(signed32(v as nat) as i32),
        ScalarType::Uint32 => ValueModel::U32((v % 0x1_0000_0000) as u32),
        ScalarType::Sint32 => ValueModel::I32(unzigzag(v as nat % 0x1_0000_0000) as i32),
        ScalarType::Sint64 => ValueModel::I64(unzigzag(v as nat) as i64),
        _ => ValueModel::Bool(v != 0),
    }
}

/// The scalar at the front of `b`, and the bytes behind it.
pub open spec fn take_scalar(s: ScalarType, b: Seq<u8>) -> Result<
    (ValueModel, Seq<u8>),
    DecodeError,
> {
    match s {
        ScalarType::Double => match take_fixed(b, 8) {
            Ok(p) => Ok((ValueModel::F64(p.0 as u64), p.1)),
            Err(e) => Err(e),
        },
        ScalarType::Fixed64 => match take_fixed(b, 8) {
            Ok(p) => Ok((ValueModel::U64(p.0 as u64), p.1)),
            Err(e) => Err(e),
        },
        ScalarType::Sfixed64 => match take_fixed(b, 8) {
            Ok(p) => Ok((ValueModel::I64(signed64(p.0) as i64), p.1)),
            Err(e) => Err(e),
        },
        ScalarType::Float => match take_fixed(b, 4) {
            Ok(p) => Ok((ValueModel::F32(p.0 as u32), p.1)),
            Err(e) => Err(e),
        },
        ScalarType::Fixed32 => match take_fixed(b, 4) {
            Ok(p) => Ok((ValueModel::U32(p.0 as u32), p.1)),
            Err(e) => Err(e),
        },
        ScalarType::Sfixed32 => match take_fixed(b, 4) {
            Ok(p) => Ok((ValueModel::I32(signed32(p.0) as i32), p.1)),
            Err(e) => Err(e),
        },
        ScalarType::String => match take_string(b) {
            Ok(p) => Ok((ValueModel::Text(p.0), p.1)),
            Err(e) => Err(e),
        },
        ScalarType::Bytes => match take_delimited(b) {
            Ok(p) => Ok((ValueModel::Bytes(p.0), p.1)),
            Err(e) => Err(e),
        },
        _ => match take_varint(b) {
            Ok(p) => Ok((varint_value(s, p.0), p.1)),
            Err(e) => Err(e),
        },
    }
}

/// The map key behind `tag` at the front of `b`, and the bytes behind it.
pub open spec fn take_key(s: ScalarType, tag: Tag, b: Seq<u8>) -> Result<
    (KeyModel, Seq<u8>),
    DecodeError,
> {
    match s {
        ScalarType::Double | ScalarType::Float | ScalarType::Bytes => Err(
            DecodeError::WireTypeMismatch {
                field_number: tag.field_number,
                expected: wire_code(WireType::Varint),
                actual: wire_code(tag.wire_type),
            },
        ),
        _ => match take_scalar(s, b) {
            Ok(p) => Ok((value_key(p.0), p.1)),
            Err(e) => Err(e),
        },
    }
}

/// A scalar that is read fits its type, takes at least one byte and leaves a
/// suffix.
pub proof fn lemma_take_scalar(s: ScalarType, b: Seq<u8>)
    ensures
        take_scalar(s, b) matches Ok(p) ==> {
            &&& scalar_fits(s, p.0)
            &&& p.1.len() < b.len()
            &&& p.1 == b.skip(b.len() - p.1.len())
        },
        take_int32(b) matches Ok(p) ==> p.1.len() < b.len() && p.1 == b.skip(b.len() - p.1.len()),
{
    lemma_take_varint(b);
    lemma_take_delimited(b);
    lemma_take_fixed(b);
}

/// Reading an enum number gives back what was written.
pub proof fn lemma_take_int32_bytes(n: i32, tail: Seq<u8>)
    ensures
        take_int32(int32_bytes(n) + tail) == Ok::<(i32, Seq<u8>), DecodeError>((n, tail)),
{
    lemma_take_varint_bytes(wrap64(n as int) as u64, tail);
}

/// A signed number is what its two's complement and its ZigZag number stand
/// for.
proof fn lemma_signed_forms(n: i64)
    ensures
        wrap64(n as int) <= u64::MAX,
        signed64(wrap64(n as int)) == n,
        zigzag(n as int) <= u64::MAX,
        unzigzag(zigzag(n as int)) == n,
        i32::MIN <= n <= i32::MAX ==> {
            &&& signed32(wrap64(n as int)) == n
            &&& wrap32(n as int) <= u32::MAX
            &&& signed32(wrap32(n as int)) == n
            &&& zigzag(n as int) <= u32::MAX
        },
{
}

/// What a scalar that is written as a varint is written as.
spec fn varint_form(s: ScalarType, v: ValueModel) -> u64 {
    match v {
        ValueModel::Bool(x) => if x {
            1
        } else {
            0
        },
        ValueModel::I32(x) => if s == ScalarType::Sint32 {
            zigzag(x as int) as u64
        } else {
            wrap64(x as int) as u64
        },
        ValueModel::I64(x) => if s == ScalarType::Sint64 {
            zigzag(x as int) as u64
        } else {
            wrap64(x as int) as u64
        },
        ValueModel::U32(x) => x as u64,
        ValueModel::U64(x) => x,
        _ => 0,
    }
}

proof fn lemma_varint_form(s: ScalarType, v: ValueModel)
    requires
        scalar_fits(s, v),
        scalar_wire(s) == WireType::Varint,
    ensures
        scalar_bytes(s, v) == varint_bytes(varint_form(s, v) as nat),
        varint_value(s, varint_form(s, v)) == v,
{
    match v {
        ValueModel::I32(x) => {
            lemma_signed_forms(x as i64);
        },
        ValueModel::I64(x) => {
            lemma_signed_forms(x);
        },
        _ => {},
    }
}

/// Reading a scalar gives back what was written.
pub proof fn lemma_take_scalar_bytes(s: ScalarType, v: ValueModel, tail: Seq<u8>)
    requires
        scalar_fits(s, v),
        scalar_bytes(s, v).len() <= usize::MAX,
    ensures
        take_scalar(s, scalar_bytes(s, v) + tail) == Ok::<(ValueModel, Seq<u8>), DecodeError>(
            (v, tail),
        ),
{
    if scalar_wire(s) == WireType::Varint {
        lemma_varint_form(s, v);
        lemma_take_varint_bytes(varint_form(s, v), tail);
    } else {
        match v {
            ValueModel::I32(x) => {
                lemma_signed_forms(x as i64);
                lemma_take_fixed_bytes(wrap32(x as int), tail);
            },
            ValueModel::I64(x) => {
                lemma_signed_forms(x);
                lemma_take_fixed_bytes(wrap64(x as int), tail);
            },
            ValueModel::U32(x) => {
                lemma_take_fixed_bytes(x as nat, tail);
            },
            ValueModel::U64(x) => {
                lemma_take_fixed_bytes(x as nat, tail);
            },
            ValueModel::F32(x) => {
                lemma_take_fixed_bytes(x as nat, tail);
            },
            ValueModel::F64(x) => {
                lemma_take_fixed_bytes(x as nat, tail);
            },
            ValueModel::Text(x) => {
                lemma_take_string_bytes(x, tail);
            },
            ValueModel::Bytes(x) => {
                lemma_take_delimited_bytes(x, tail);
            },
            _ => {},
        }
    }
}

/// Reading a map key gives back what was written.
pub proof fn lemma_take_key_bytes(s: ScalarType, k: KeyModel, tag: Tag, tail: Seq<u8>)
    requires
        key_fits(s, k),
        key_bytes(s, k).len() <= usize::MAX,
    ensures
        take_key(s, tag, key_bytes(s, k) + tail) == Ok::<(KeyModel, Seq<u8>), DecodeError>(
            (k, tail),
        ),
        key_wire(s) == scalar_wire(s),
{
    lemma_take_scalar_bytes(s, key_value(k), tail);
}

// ── Lengths ─────────────────────────────────────────────────────────────────

/// `n`, or the largest `usize` where `n` is larger.
pub open spec fn capped(n: nat) -> usize {
    if n > usize::MAX {
        usize::MAX
    } else {
        n as usize
    }
}

/// The sum of two lengths, or the largest `usize` where it is larger.
pub fn add_len(a: usize, b: usize) -> (r: usize)
    ensures
        r == capped(a as nat + b as nat),
{
    if a > usize::MAX - b {
        usize::MAX
    } else {
        a + b
    }
}

/// The length of a payload of `n` bytes with its length in front.
pub fn delimited_len(n: usize) -> (r: usize)
    ensures
        r == capped(varint_bytes(n as nat).len() + n as nat),
{
    add_len(varint_len(n as u64), n)
}

/// The length of an enum number, and of an `int32`.
pub fn int32_len(n: i32) -> (r: usize)
    ensures
        r == int32_bytes(n).len(),
        r <= 10,
{
    proof {
        lemma_varint_bytes_len(wrap64(n as int) as u64);
    }
    varint_len(to_wrapped64(n as i64))
}

/// The encoded length of a scalar; 0 where the value is not of the type.
pub fn scalar_len(s: ScalarType, v: &Value) -> (r: usize)
    ensures
        r == capped(scalar_bytes(s, v@).len()),
{
    proof {
        match v@ {
            ValueModel::Bool(x) => {
                lemma_varint_bytes_len(1);
                lemma_varint_bytes_len(0);
            },
            ValueModel::I32(x) => {
                lemma_le_bytes_len(wrap32(x as int), 4);
                lemma_varint_bytes_len(zigzag(x as int) as u64);
            },
            ValueModel::I64(x) => {
                lemma_le_bytes_len(wrap64(x as int), 8);
                lemma_varint_bytes_len(wrap64(x as int) as u64);
                lemma_varint_bytes_len(zigzag(x as int) as u64);
            },
            ValueModel::U32(x) => {
                lemma_le_bytes_len(x as nat, 4);
                lemma_varint_bytes_len(x as u64);
            },
            ValueModel::U64(x) => {
                lemma_le_bytes_len(x as nat, 8);
                lemma_varint_bytes_len(x);
            },
            ValueModel::F32(x) => {
                lemma_le_bytes_len(x as nat, 4);
            },
            ValueModel::F64(x) => {
                lemma_le_bytes_len(x as nat, 8);
            },
            _ => {},
        }
    }
    match (s, v) {
        (ScalarType::Double, Value::F64(_)) => 8,
        (ScalarType::Fixed64, Value::U64(_)) => 8,
        (ScalarType::Sfixed64, Value::I64(_)) => 8,
        (ScalarType::Float, Value::F32(_)) => 4,
        (ScalarType::Fixed32, Value::U32(_)) => 4,
        (ScalarType::Sfixed32, Value::I32(_)) => 4,
        (ScalarType::Bool, Value::Bool(_)) => 1,
        (ScalarType::Int64, Value::I64(x)) => varint_len(to_wrapped64(*x)),
        (ScalarType::Uint64, Value::U64(x)) => varint_len(*x),
        (ScalarType::Int32, Value::I32(x)) => int32_len(*x),
        (ScalarType::Uint32, Value::U32(x)) => varint_len(*x as u64),
        (ScalarType::Sint32, Value::I32(x)) => varint_len(to_zigzag64(*x as i64)),
        (ScalarType::Sint64, Value::I64(x)) => varint_len(to_zigzag64(*x)),
        (ScalarType::String, Value::String(x)) => delimited_len(x.as_str().as_bytes().len()),
        (ScalarType::Bytes, Value::Bytes(x)) => delimited_len(x.len()),
        _ => 0,
    }
}

/// The encoded length of a map key; 0 where the key is not of the type.
pub fn map_key_len(s: ScalarType, k: &MapKey) -> (r: usize)
    ensures
        r == capped(key_bytes(s, k@).len()),
{
    proof {
        match k@ {
            KeyModel::Bool(x) => {
                lemma_varint_bytes_len(1);
                lemma_varint_bytes_len(0);
            },
            KeyModel::I32(x) => {
                lemma_le_bytes_len(wrap32(x as int), 4);
                lemma_varint_bytes_len(zigzag(x as int) as u64);
            },
            KeyModel::I64(x) => {
                lemma_le_bytes_len(wrap64(x as int), 8);
                lemma_varint_bytes_len(wrap64(x as int) as u64);
                lemma_varint_bytes_len(zigzag(x as int) as u64);
            },
            KeyModel::U32(x) => {
                lemma_le_bytes_len(x as nat, 4);
                lemma_varint_bytes_len(x as u64);
            },
            KeyModel::U64(x) => {
                lemma_le_bytes_len(x as nat, 8);
                lemma_varint_bytes_len(x);
            },
            _ => {},
        }
    }
    match (s, k) {
        (ScalarType::Fixed32, MapKey::U32(_)) => 4,
        (ScalarType::Sfixed32, MapKey::I32(_)) => 4,
        (ScalarType::Fixed64, MapKey::U64(_)) => 8,
        (ScalarType::Sfixed64, MapKey::I64(_)) => 8,
        (ScalarType::Bool, MapKey::Bool(_)) => 1,
        (ScalarType::Int32, MapKey::I32(x)) => int32_len(*x),
        (ScalarType::Sint32, MapKey::I32(x)) => varint_len(to_zigzag64(*x as i64)),
        (ScalarType::Int64, MapKey::I64(x)) => varint_len(to_wrapped64(*x)),
        (ScalarType::Sint64, MapKey::I64(x)) => varint_len(to_zigzag64(*x)),
        (ScalarType::Uint32, MapKey::U32(x)) => varint_len(*x as u64),
        (ScalarType::Uint64, MapKey::U64(x)) => varint_len(*x),
        (ScalarType::String, MapKey::String(x)) => delimited_len(x.as_str().as_bytes().len()),
        _ => 0,
    }
}

// ── Writing ─────────────────────────────────────────────────────────────────

/// Appends an enum number, or an `int32`.
pub fn encode_int32(n: i32, buf: &mut Vec<u8>)
    ensures
        final(buf)@ == old(buf)@ + int32_bytes(n),
{
    write_varint(to_wrapped64(n as i64), buf);
}

fn encode_bool(b: bool, buf: &mut Vec<u8>)
    ensures
        final(buf)@ == old(buf)@ + scalar_bytes(ScalarType::Bool, ValueModel::Bool(b)),
{
    if b {
        write_varint(1, buf);
    } else {
        write_varint(0, buf);
    }
}

/// Appends a scalar; nothing where the value is not of the type.
pub fn encode_scalar(s: ScalarType, v: &Value, buf: &mut Vec<u8>)
    ensures
        final(buf)@ == old(buf)@ + scalar_bytes(s, v@),
{
    match (s, v) {
        (ScalarType::Double, Value::F64(x)) => write_fixed64(*x, buf),
        (ScalarType::Float, Value::F32(x)) => write_fixed32(*x, buf),
        (ScalarType::Int64, Value::I64(x)) => write_varint(to_wrapped64(*x), buf),
        (ScalarType::Uint64, Value::U64(x)) => write_varint(*x, buf),
        (ScalarType::Int32, Value::I32(x)) => encode_int32(*x, buf),
        (ScalarType::Fixed64, Value::U64(x)) => write_fixed64(*x, buf),
        (ScalarType::Fixed32, Value::U32(x)) => write_fixed32(*x, buf),
        (ScalarType::Bool, Value::Bool(x)) => encode_bool(*x, buf),
        (ScalarType::String, Value::String(x)) => write_string(x.as_str(), buf),
        (ScalarType::Bytes, Value::Bytes(x)) => write_delimited(x.as_slice(), buf),
        (ScalarType::Uint32, Value::U32(x)) => write_varint(*x as u64, buf),
        (ScalarType::Sfixed32, Value::I32(x)) => write_fixed32(to_wrapped32(*x), buf),
        (ScalarType::Sfixed64, Value::I64(x)) => write_fixed64(to_wrapped64(*x), buf),
        (ScalarType::Sint32, Value::I32(x)) => write_varint(to_zigzag64(*x as i64), buf),
        (ScalarType::Sint64, Value::I64(x)) => write_varint(to_zigzag64(*x), buf),
        _ => {
            assert(buf@ =~= old(buf)@ + Seq::<u8>::empty());
        },
    }
}

/// Appends a map key; nothing where the key is not of the type.
pub fn encode_map_key(s: ScalarType, k: &MapKey, buf: &mut Vec<u8>)
    ensures
        final(buf)@ == old(buf)@ + key_bytes(s, k@),
{
    match (s, k) {
        (ScalarType::Bool, MapKey::Bool(x)) => encode_bool(*x, buf),
        (ScalarType::Int32, MapKey::I32(x)) => encode_int32(*x, buf),
        (ScalarType::Sint32, MapKey::I32(x)) => write_varint(to_zigzag64(*x as i64), buf),
        (ScalarType::Sfixed32, MapKey::I32(x)) => write_fixed32(to_wrapped32(*x), buf),
        (ScalarType::Int64, MapKey::I64(x)) => write_varint(to_wrapped64(*x), buf),
        (ScalarType::Sint64, MapKey::I64(x)) => write_varint(to_zigzag64(*x), buf),
        (ScalarType::Sfixed64, MapKey::I64(x)) => write_fixed64(to_wrapped64(*x), buf),
        (ScalarType::Uint32, MapKey::U32(x)) => write_varint(*x as u64, buf),
        (ScalarType::Fixed32, MapKey::U32(x)) => write_fixed32(*x, buf),
        (ScalarType::Uint64, MapKey::U64(x)) => write_varint(*x, buf),
        (ScalarType::Fixed64, MapKey::U64(x)) => write_fixed64(*x, buf),
        (ScalarType::String, MapKey::String(x)) => write_string(x.as_str(), buf),
        _ => {
            assert(buf@ =~= old(buf)@ + Seq::<u8>::empty());
        },
    }
}

// ── Reading ─────────────────────────────────────────────────────────────────

/// Reads an enum number, or an `int32`.
pub fn decode_int32(buf: &[u8]) -> (r: Result<(i32, &[u8]), DecodeError>)
    ensures
        match take_int32(buf@) {
            Ok(p) => r is Ok && r->Ok_0.0 == p.0 && r->Ok_0.1@ == p.1,
            Err(e) => r is Err && r->Err_0 == e,
        },
{
    match read_varint(buf) {
        Ok((v, rest)) => Ok((from_wrapped32(v), rest)),
        Err(e) => Err(e),
    }
}

fn varint_scalar(s: ScalarType, v: u64) -> (r: Value)
    ensures
        r@ == varint_value(s, v),
{
    match s {
        ScalarType::Int64 => Value::I64(from_wrapped64(v)),
        ScalarType::Uint64 => Value::U64(v),
        ScalarType::Int32 => Value::I32(from_wrapped32(v)),
        ScalarType::Uint32 => Value::U32((v % 0x1_0000_0000) as u32),
        ScalarType::Sint32 => Value::I32(from_zigzag32(v)),
        ScalarType::Sint64 => Value::I64(from_zigzag64(v)),
        _ => Value::Bool(v != 0),
    }
}

/// `r` is the executable form of the reading `m` of a value.
pub open spec fn reads_value(
    r: Result<(Value, &[u8]), DecodeError>,
    m: Result<(ValueModel, Seq<u8>), DecodeError>,
) -> bool {
    match m {
        Ok(p) => r is Ok && r->Ok_0.0@ == p.0 && r->Ok_0.1@ == p.1,
        Err(e) => r is Err && r->Err_0 == e,
    }
}

/// Reads a scalar.
pub fn decode_scalar(s: ScalarType, buf: &[u8]) -> (r: Result<(Value, &[u8]), DecodeError>)
    ensures
        reads_value(r, take_scalar(s, buf@)),
{
    match s {
        ScalarType::Double => match read_fixed64(buf) {
            Ok((x, rest)) => Ok((Value::F64(x), rest)),
            Err(e) => Err(e),
        },
        ScalarType::Fixed64 => match read_fixed64(buf) {
            Ok((x, rest)) => Ok((Value::U64(x), rest)),
            Err(e) => Err(e),
        },
        ScalarType::Sfixed64 => match read_fixed64(buf) {
            Ok((x, rest)) => Ok((Value::I64(from_wrapped64(x)), rest)),
            Err(e) => Err(e),
        },
        ScalarType::Float => match read_fixed32(buf) {
            Ok((x, rest)) => Ok((Value::F32(x), rest)),
            Err(e) => Err(e),
        },
        ScalarType::Fixed32 => match read_fixed32(buf) {
            Ok((x, rest)) => Ok((Value::U32(x), rest)),
            Err(e) => Err(e),
        },
        ScalarType::Sfixed32 => match read_fixed32(buf) {
            Ok((x, rest)) => Ok((Value::I32(from_wrapped32(x as u64)), rest)),
            Err(e) => Err(e),
        },
        ScalarType::String => match read_string(buf) {
            Ok((x, rest)) => Ok((Value::String(x), rest)),
            Err(e) => Err(e),
        },
        ScalarType::Bytes => match read_delimited(buf) {
            Ok((x, rest)) => Ok((Value::Bytes(vstd::slice::slice_to_vec(x)), rest)),
            Err(e) => Err(e),
        },
        _ => match read_varint(buf) {
            Ok((x, rest)) => Ok((varint_scalar(s, x), rest)),
            Err(e) => Err(e),
        },
    }
}

/// Reads a map key behind its tag. Floating-point numbers and bytes are no
/// keys.
pub fn decode_map_key(s: ScalarType, tag: Tag, buf: &[u8]) -> (r: Result<
    (MapKey, &[u8]),
    DecodeError,
>)
    ensures
        match take_key(s, tag, buf@) {
            Ok(p) => r is Ok && r->Ok_0.0@ == p.0 && r->Ok_0.1@ == p.1,
            Err(e) => r is Err && r->Err_0 == e,
        },
{
    match s {
        ScalarType::Double | ScalarType::Float | ScalarType::Bytes => {
            return Err(
                DecodeError::WireTypeMismatch {
                    field_number: tag.field_number,
                    expected: WireType::Varint.code(),
                    actual: tag.wire_type.code(),
                },
            );
        },
        _ => {},
    }
    proof {
        lemma_take_scalar(s, buf@);
    }
    match decode_scalar(s, buf) {
        Ok((v, rest)) => {
            let key = match v {
                Value::Bool(x) => MapKey::Bool(x),
                Value::I32(x) => MapKey::I32(x),
                Value::I64(x) => MapKey::I64(x),
                Value::U32(x) => MapKey::U32(x),
                Value::U64(x) => MapKey::U64(x),
                Value::String(x) => MapKey::String(x),
                _ => MapKey::Bool(false),
            };
            Ok((key, rest))
        },
        Err(e) => Err(e),
    }
}

// ── Defaults ────────────────────────────────────────────────────────────────

/// The default of a scalar type: zero, false, or empty.
pub open spec fn scalar_default(s: ScalarType) -> ValueModel {
    match s {
        ScalarType::Double => ValueModel::F64(0),
        ScalarType::Float => ValueModel::F32(0),
        ScalarType::Int64 | ScalarType::Sfixed64 | ScalarType::Sint64 => ValueModel::I64(0),
        ScalarType::Uint64 | ScalarType::Fixed64 => ValueModel::U64(0),
        ScalarType::Int32 | ScalarType::Sfixed32 | ScalarType::Sint32 => ValueModel::I32(0),
        ScalarType::Uint32 | ScalarType::Fixed32 => ValueModel::U32(0),
        ScalarType::Bool => ValueModel::Bool(false),
        ScalarType::String => ValueModel::Text(Seq::empty()),
        ScalarType::Bytes => ValueModel::Bytes(Seq::empty()),
    }
}

/// The default of a type of map keys; `false` for a type that has no keys.
pub open spec fn key_default(s: ScalarType) -> KeyModel {
    value_key(scalar_default(s))
}

/// The value is the default of a scalar or of an enum. Negative zero is none.
pub open spec fn is_default(v: ValueModel) -> bool {
    match v {
        ValueModel::Bool(b) => !b,
        ValueModel::I32(n) => n == 0,
        ValueModel::I64(n) => n == 0,
        ValueModel::U32(n) => n == 0,
        ValueModel::U64(n) => n == 0,
        ValueModel::F32(n) => n == 0,
        ValueModel::F64(n) => n == 0,
        ValueModel::Text(s) => s.len() == 0,
        ValueModel::Bytes(b) => b.len() == 0,
        ValueModel::EnumNumber(n) => n == 0,
        ValueModel::Message(_) | ValueModel::List(_) | ValueModel::Mapping(_) => false,
    }
}

/// The default of a scalar type.
pub fn default_scalar_value(s: ScalarType) -> (r: Value)
    ensures
        r@ == scalar_default(s),
{
    match s {
        ScalarType::Double => Value::F64(0),
        ScalarType::Float => Value::F32(0),
        ScalarType::Int64 | ScalarType::Sfixed64 | ScalarType::Sint64 => Value::I64(0),
        ScalarType::Uint64 | ScalarType::Fixed64 => Value::U64(0),
        ScalarType::Int32 | ScalarType::Sfixed32 | ScalarType::Sint32 => Value::I32(0),
        ScalarType::Uint32 | ScalarType::Fixed32 => Value::U32(0),
        ScalarType::Bool => Value::Bool(false),
        ScalarType::String => Value::String(String::new()),
        ScalarType::Bytes => Value::Bytes(Vec::new()),
    }
}

/// The default of a type of map keys.
pub fn default_map_key(s: ScalarType) -> (r: MapKey)
    ensures
        r@ == key_default(s),
{
    match s {
        ScalarType::Bool => MapKey::Bool(false),
        ScalarType::Int32 | ScalarType::Sint32 | ScalarType::Sfixed32 => MapKey::I32(0),
        ScalarType::Int64 | ScalarType::Sint64 | ScalarType::Sfixed64 => MapKey::I64(0),
        ScalarType::Uint32 | ScalarType::Fixed32 => MapKey::U32(0),
        ScalarType::Uint64 | ScalarType::Fixed64 => MapKey::U64(0),
        ScalarType::String => MapKey::String(String::new()),
        ScalarType::Double | ScalarType::Float | ScalarType::Bytes => MapKey::Bool(false),
    }
}

/// Whether a value is the default of a scalar or of an enum. Numbers are
/// compared by their bits, so that negative zero is not.
pub fn is_default_scalar(v: &Value) -> (r: bool)
    ensures
        r == is_default(v@),
{
    match v {
        Value::Bool(b) => !*b,
        Value::I32(n) => *n == 0,
        Value::I64(n) => *n == 0,
        Value::U32(n) => *n == 0,
        Value::U64(n) => *n == 0,
        Value::F32(n) => *n == 0,
        Value::F64(n) => *n == 0,
        Value::String(s) => s.as_str().is_empty(),
        Value::Bytes(b) => b.len() == 0,
        Value::EnumNumber(n) => *n == 0,
        Value::Message(_) => false,
        Value::List(_) => false,
        Value::Mapping(_) => false,
    }
}

} // verus!
