//! What the bytes of varints, tags, payloads and scalars are, in numbers.
use vstd::prelude::*;
use vstd::utf8::{decode_utf8, encode_utf8, valid_utf8};
use crate::descriptor::{FieldKind, ScalarType, SingularKind};
use crate::scalar::{
    capped, element_wire, int32_bytes, is_default, key_bytes, key_default, key_value, key_wire,
    packable, scalar_bytes, scalar_default, scalar_wire, take_int32, take_key, take_scalar,
    wire_admits,
};
use crate::shape::{key_fits, scalar_fits};
use crate::value::{KeyModel, ValueModel};
use crate::wire::{
    delimited_bytes, le_bytes, le_value, lemma_le_bytes_len, lemma_take_varint_bytes, tag_bytes,
    take_delimited, take_fixed, take_tag, varint_bytes, wire_code, DecodeError, Tag, WireType,
};

verus! {

// ── Varints, tags and fixed-width numbers ───────────────────────────────────

/// The number that the low seven bits of the bytes make up, low bits first.
pub open spec fn septets(s: Seq<u8>) -> nat
    decreases s.len(),
{
    if s.len() == 0 {
        0
    } else {
        (s[0] % 128) as nat + 128 * septets(s.skip(1))
    }
}

/// The bytes of a varint make up its number, seven bits to a byte. The high bit
/// is set in all of them but the last, which is zero only where it is the only
/// one.
pub proof fn law_varint(v: nat)
    ensures
        varint_bytes(v).len() > 0,
        septets(varint_bytes(v)) == v,
        forall|i: int|
            0 <= i < varint_bytes(v).len() ==> (#[trigger] varint_bytes(v)[i] < 128 <==> i
                == varint_bytes(v).len() - 1),
        varint_bytes(v).len() > 1 ==> varint_bytes(v).last() > 0,
    decreases v,
{
    let s = varint_bytes(v);
    if v < 128 {
        assert(s =~= seq![v as u8]);
        assert(septets(s.skip(1)) == 0);
    } else {
        let t = varint_bytes(v / 128);
        law_varint(v / 128);
        assert(s =~= seq![(v % 128 + 128) as u8] + t);
        assert(s.skip(1) =~= t);
        assert(s[0] % 128 == v % 128);
        assert forall|i: int| 0 <= i < s.len() implies (#[trigger] s[i] < 128 <==> i == s.len()
            - 1) by {
            if i > 0 {
                assert(s[i] == t[i - 1]);
            }
        }
        if t.len() == 1 {
            assert(t[0] == septets(t)) by {
                assert(t.skip(1).len() == 0);
            }
        }
        assert(s.last() == t.last());
    }
}

/// The three bits for a wire type in a tag.
pub open spec fn low_bits(w: WireType) -> nat {
    match w {
        WireType::Varint => 0,
        WireType::Fixed64 => 1,
        WireType::LengthDelimited => 2,
        WireType::StartGroup => 3,
        WireType::EndGroup => 4,
        WireType::Fixed32 => 5,
    }
}

/// A tag is the varint of eight times the field number and the bits for the wire
/// type.
pub proof fn law_tag(number: u32, w: WireType)
    ensures
        tag_bytes(number, w) == varint_bytes(8 * (number as nat) + low_bits(w)),
        wire_code(w) == low_bits(w),
{
}

/// A varint is read as a tag where it has no more than 32 bits, its low three
/// bits stand for a wire type, and the others for a number that is not zero.
pub proof fn law_tag_read(v: u64, tail: Seq<u8>)
    ensures
        ({
            let r = take_tag(varint_bytes(v as nat) + tail);
            &&& r is Ok <==> 8 <= v <= u32::MAX && v % 8 < 6
            &&& r matches Ok(p) ==> {
                &&& p.1 == tail
                &&& 8 * p.0.field_number + low_bits(p.0.wire_type) == v
            }
            &&& r matches Err(e) ==> e == (if v <= u32::MAX && v % 8 >= 6 {
                DecodeError::InvalidWireType((v % 8) as u32)
            } else {
                DecodeError::InvalidFieldNumber
            })
        }),
{
    lemma_take_varint_bytes(v, tail);
}

/// Bytes that are not a varint are no tag.
pub proof fn law_no_tag(s: Seq<u8>)
    ensures
        crate::wire::take_varint(s) matches Err(e) ==> take_tag(s) == Err::<
            (Tag, Seq<u8>),
            DecodeError,
        >(e),
{
}

/// The number that four bytes make up, low byte first.
pub open spec fn four(b: Seq<u8>) -> nat {
    (b[0] + 0x100 * b[1] + 0x1_0000 * b[2] + 0x100_0000 * b[3]) as nat
}

/// The number that eight bytes make up, low byte first.
pub open spec fn eight(b: Seq<u8>) -> nat {
    four(b) + 0x1_0000_0000 * four(b.skip(4))
}

proof fn lemma_le_four(s: Seq<u8>)
    requires
        s.len() == 4,
    ensures
        le_value(s) == four(s),
{
    reveal_with_fuel(le_value, 5);
    assert(s.skip(1).skip(1) =~= s.skip(2));
    assert(s.skip(2).skip(1) =~= s.skip(3));
    assert(s.skip(3).skip(1).len() == 0);
}

proof fn lemma_le_eight(s: Seq<u8>)
    requires
        s.len() == 8,
    ensures
        le_value(s) == eight(s),
{
    reveal_with_fuel(le_value, 9);
    assert(s.skip(1).skip(1) =~= s.skip(2));
    assert(s.skip(2).skip(1) =~= s.skip(3));
    assert(s.skip(3).skip(1) =~= s.skip(4));
    assert(s.skip(4).skip(1) =~= s.skip(5));
    assert(s.skip(5).skip(1) =~= s.skip(6));
    assert(s.skip(6).skip(1) =~= s.skip(7));
    assert(s.skip(7).skip(1).len() == 0);
}

/// Fixed-width numbers are written and read low byte first.
pub proof fn law_fixed(v: nat, s: Seq<u8>)
    ensures
        le_bytes(v, 4).len() == 4,
        le_bytes(v, 8).len() == 8,
        v <= u32::MAX ==> four(le_bytes(v, 4)) == v,
        v <= u64::MAX ==> eight(le_bytes(v, 8)) == v,
        take_fixed(s, 4) == if s.len() >= 4 {
            Ok((four(s), s.skip(4)))
        } else {
            Err(DecodeError::UnexpectedEof)
        },
        take_fixed(s, 8) == if s.len() >= 8 {
            Ok((eight(s), s.skip(8)))
        } else {
            Err(DecodeError::UnexpectedEof)
        },
{
    lemma_le_bytes_len(v, 4);
    lemma_le_bytes_len(v, 8);
    let a = le_bytes(v, 4);
    let b = le_bytes(v, 8);
    crate::wire::lemma_take_fixed_bytes(v, Seq::empty());
    assert(a + Seq::<u8>::empty() =~= a);
    assert(b + Seq::<u8>::empty() =~= b);
    assert(a.take(4) =~= a);
    assert(b.take(8) =~= b);
    lemma_le_four(a);
    lemma_le_eight(b);
    if s.len() >= 4 {
        lemma_le_four(s.take(4));
    }
    if s.len() >= 8 {
        lemma_le_eight(s.take(8));
        assert(four(s.take(8)) == four(s));
        assert(four(s.take(8).skip(4)) == four(s.skip(4)));
    }
}

/// A payload stands behind the varint of its length, and as many bytes are read
/// as the varint says.
pub proof fn law_delimited(b: Seq<u8>, n: u64, s: Seq<u8>)
    ensures
        delimited_bytes(b) == varint_bytes(b.len()) + b,
        n <= usize::MAX ==> (take_delimited(varint_bytes(n as nat) + s) == if n <= s.len() {
            Ok((s.subrange(0, n as int), s.subrange(n as int, s.len() as int)))
        } else {
            Err(DecodeError::UnexpectedEof)
        }),
        n > usize::MAX ==> take_delimited(varint_bytes(n as nat) + s) == Err::<
            (Seq<u8>, Seq<u8>),
            DecodeError,
        >(DecodeError::MessageTooLarge),
{
    lemma_take_varint_bytes(n, s);
    if n <= s.len() {
        assert(s.take(n as int) =~= s.subrange(0, n as int));
        assert(s.skip(n as int) =~= s.subrange(n as int, s.len() as int));
    }
}

// ── Scalars ─────────────────────────────────────────────────────────────────

/// The number modulo two to the 64th: its two's complement of 64 bits.
pub open spec fn mod64(n: int) -> nat {
    (n % 0x1_0000_0000_0000_0000) as nat
}

/// The number modulo two to the 32nd: its two's complement of 32 bits.
pub open spec fn mod32(n: int) -> nat {
    (n % 0x1_0000_0000) as nat
}

/// Twice the number, or twice what it is below zero, less one.
pub open spec fn folded(n: int) -> nat {
    if n >= 0 {
        (n + n) as nat
    } else {
        (-n - n - 1) as nat
    }
}

/// Which values are of a scalar type, seen from the values.
pub proof fn law_scalar_fits(s: ScalarType, v: ValueModel)
    ensures
        scalar_fits(s, v) <==> match v {
            ValueModel::Bool(_) => s is Bool,
            ValueModel::I32(_) => s is Int32 || s is Sint32 || s is Sfixed32,
            ValueModel::I64(_) => s is Int64 || s is Sint64 || s is Sfixed64,
            ValueModel::U32(_) => s is Uint32 || s is Fixed32,
            ValueModel::U64(_) => s is Uint64 || s is Fixed64,
            ValueModel::F32(_) => s is Float,
            ValueModel::F64(_) => s is Double,
            ValueModel::Text(_) => s is String,
            ValueModel::Bytes(_) => s is Bytes,
            _ => false,
        },
{
}

/// A key is of a scalar type where the value that it is is; and there are no
/// other keys than these.
pub proof fn law_key_fits(s: ScalarType, k: KeyModel)
    ensures
        key_fits(s, k) <==> match k {
            KeyModel::Bool(x) => scalar_fits(s, ValueModel::Bool(x)),
            KeyModel::I32(x) => scalar_fits(s, ValueModel::I32(x)),
            KeyModel::I64(x) => scalar_fits(s, ValueModel::I64(x)),
            KeyModel::U32(x) => scalar_fits(s, ValueModel::U32(x)),
            KeyModel::U64(x) => scalar_fits(s, ValueModel::U64(x)),
            KeyModel::Text(x) => scalar_fits(s, ValueModel::Text(x)),
        },
{
}

/// The bytes of a scalar: integers as varints, negative ones in two's complement
/// of 64 bits; ZigZag for `sint32` and `sint64` alone; floating-point numbers and
/// the fixed types low byte first; strings in UTF-8 behind their length.
pub proof fn law_scalar_bytes(s: ScalarType, v: ValueModel)
    requires
        scalar_fits(s, v),
    ensures
        match v {
            ValueModel::Bool(x) => scalar_bytes(s, v) == varint_bytes(
                if x {
                    1
                } else {
                    0
                },
            ),
            ValueModel::I32(x) => scalar_bytes(s, v) == if s is Sint32 {
                varint_bytes(folded(x as int))
            } else if s is Sfixed32 {
                le_bytes(mod32(x as int), 4)
            } else {
                varint_bytes(mod64(x as int))
            },
            ValueModel::I64(x) => scalar_bytes(s, v) == if s is Sint64 {
                varint_bytes(folded(x as int))
            } else if s is Sfixed64 {
                le_bytes(mod64(x as int), 8)
            } else {
                varint_bytes(mod64(x as int))
            },
            ValueModel::U32(x) => scalar_bytes(s, v) == if s is Fixed32 {
                le_bytes(x as nat, 4)
            } else {
                varint_bytes(x as nat)
            },
            ValueModel::U64(x) => scalar_bytes(s, v) == if s is Fixed64 {
                le_bytes(x as nat, 8)
            } else {
                varint_bytes(x as nat)
            },
            ValueModel::F32(x) => scalar_bytes(s, v) == le_bytes(x as nat, 4),
            ValueModel::F64(x) => scalar_bytes(s, v) == le_bytes(x as nat, 8),
            ValueModel::Text(x) => scalar_bytes(s, v) == varint_bytes(encode_utf8(x).len())
                + encode_utf8(x),
            ValueModel::Bytes(x) => scalar_bytes(s, v) == varint_bytes(x.len()) + x,
            _ => false,
        },
{
}

/// An enum number is written as an `int32` is: in two's complement of 64 bits.
pub proof fn law_int32_bytes(n: i32)
    ensures
        int32_bytes(n) == varint_bytes(mod64(n as int)),
        int32_bytes(n) == scalar_bytes(ScalarType::Int32, ValueModel::I32(n)),
{
}

/// A map key is written as a field of its type is: a number in two's complement,
/// in ZigZag form for `sint32` and `sint64` alone.
pub proof fn law_key_bytes(s: ScalarType, k: KeyModel)
    requires
        key_fits(s, k),
    ensures
        match k {
            KeyModel::Bool(x) => key_bytes(s, k) == scalar_bytes(s, ValueModel::Bool(x)),
            KeyModel::I32(x) => key_bytes(s, k) == scalar_bytes(s, ValueModel::I32(x)),
            KeyModel::I64(x) => key_bytes(s, k) == scalar_bytes(s, ValueModel::I64(x)),
            KeyModel::U32(x) => key_bytes(s, k) == scalar_bytes(s, ValueModel::U32(x)),
            KeyModel::U64(x) => key_bytes(s, k) == scalar_bytes(s, ValueModel::U64(x)),
            KeyModel::Text(x) => key_bytes(s, k) == scalar_bytes(s, ValueModel::Text(x)),
        },
        k matches KeyModel::I32(x) ==> s is Int32 ==> key_bytes(s, k) == varint_bytes(
            mod64(x as int),
        ),
        k matches KeyModel::I64(x) ==> s is Int64 ==> key_bytes(s, k) == varint_bytes(
            mod64(x as int),
        ),
        k matches KeyModel::I32(x) ==> s is Sint32 ==> key_bytes(s, k) == varint_bytes(
            folded(x as int),
        ),
        k matches KeyModel::I64(x) ==> s is Sint64 ==> key_bytes(s, k) == varint_bytes(
            folded(x as int),
        ),
        key_wire(s) == scalar_wire(s),
{
}

/// What a varint is read as: the number of the type that agrees with it in the
/// low 32 or 64 bits; what ZigZag stands for; and for a `bool` whether it is not
/// zero.
pub proof fn law_varint_read(s: ScalarType, v: u64, tail: Seq<u8>)
    requires
        s is Int32 || s is Int64 || s is Uint32 || s is Uint64 || s is Sint32 || s is Sint64
            || s is Bool,
    ensures
        take_scalar(s, varint_bytes(v as nat) + tail) matches Ok(p) && p.1 == tail && match p.0 {
            ValueModel::Bool(x) => s is Bool && x == (v != 0),
            ValueModel::I32(x) => s is Int32 && mod32(x as int) == mod32(v as int) || s is Sint32
                && folded(x as int) == mod32(v as int),
            ValueModel::I64(x) => s is Int64 && mod64(x as int) == v || s is Sint64 && folded(
                x as int,
            ) == v,
            ValueModel::U32(x) => s is Uint32 && x == mod32(v as int),
            ValueModel::U64(x) => s is Uint64 && x == v,
            _ => false,
        },
{
    lemma_take_varint_bytes(v, tail);
    assert(v as nat % 0x1_0000_0000 == mod32(v as int));
}

/// An enum number is the one that agrees with the varint in the low 32 bits.
pub proof fn law_int32_read(v: u64, tail: Seq<u8>)
    ensures
        take_int32(varint_bytes(v as nat) + tail) matches Ok(p) && p.1 == tail && mod32(
            p.0 as int,
        ) == mod32(v as int),
{
    lemma_take_varint_bytes(v, tail);
}

/// What fixed-width scalars are read as.
pub proof fn law_fixed_read(s: ScalarType, b: Seq<u8>)
    requires
        s is Double || s is Float || s is Fixed32 || s is Fixed64 || s is Sfixed32 || s
            is Sfixed64,
    ensures
        ({
            let wide = s is Double || s is Fixed64 || s is Sfixed64;
            let n: int = if wide {
                8
            } else {
                4
            };
            match take_scalar(s, b) {
                Ok(p) => b.len() >= n && p.1 == b.skip(n) && match p.0 {
                    ValueModel::F64(x) => s is Double && x == eight(b),
                    ValueModel::U64(x) => s is Fixed64 && x == eight(b),
                    ValueModel::I64(x) => s is Sfixed64 && mod64(x as int) == eight(b),
                    ValueModel::F32(x) => s is Float && x == four(b),
                    ValueModel::U32(x) => s is Fixed32 && x == four(b),
                    ValueModel::I32(x) => s is Sfixed32 && mod32(x as int) == four(b),
                    _ => false,
                },
                Err(e) => b.len() < n && e == DecodeError::UnexpectedEof,
            }
        }),
{
    law_fixed(0, b);
    crate::wire::lemma_take_fixed(b);
}

/// What strings and bytes are read as: the payload, which for a string must be
/// UTF-8.
pub proof fn law_payload_read(b: Seq<u8>)
    ensures
        match take_delimited(b) {
            Ok(p) => {
                &&& take_scalar(ScalarType::Bytes, b) == Ok::<(ValueModel, Seq<u8>), DecodeError>(
                    (ValueModel::Bytes(p.0), p.1),
                )
                &&& take_scalar(ScalarType::String, b) == if valid_utf8(p.0) {
                    Ok((ValueModel::Text(decode_utf8(p.0)), p.1))
                } else {
                    Err(DecodeError::InvalidUtf8)
                }
            },
            Err(e) => {
                &&& take_scalar(ScalarType::Bytes, b) == Err::<(ValueModel, Seq<u8>), DecodeError>(
                    e,
                )
                &&& take_scalar(ScalarType::String, b) == Err::<
                    (ValueModel, Seq<u8>),
                    DecodeError,
                >(e)
            },
        },
{
}

/// A map key is read as a scalar of its type is, and is the same value.
pub proof fn law_key_read(s: ScalarType, tag: Tag, b: Seq<u8>)
    requires
        !(s is Double || s is Float || s is Bytes),
    ensures
        match take_scalar(s, b) {
            Ok(p) => take_key(s, tag, b) matches Ok(q) && q.1 == p.1 && match p.0 {
                ValueModel::Bool(x) => q.0 == KeyModel::Bool(x),
                ValueModel::I32(x) => q.0 == KeyModel::I32(x),
                ValueModel::I64(x) => q.0 == KeyModel::I64(x),
                ValueModel::U32(x) => q.0 == KeyModel::U32(x),
                ValueModel::U64(x) => q.0 == KeyModel::U64(x),
                ValueModel::Text(x) => q.0 == KeyModel::Text(x),
                _ => false,
            },
            Err(e) => take_key(s, tag, b) == Err::<(KeyModel, Seq<u8>), DecodeError>(e),
        },
{
    crate::scalar::lemma_take_scalar(s, b);
}

/// Floating-point numbers and bytes are no keys.
pub proof fn law_no_key(s: ScalarType, tag: Tag, b: Seq<u8>)
    requires
        s is Double || s is Float || s is Bytes,
    ensures
        take_key(s, tag, b) matches Err(DecodeError::WireTypeMismatch {
            field_number,
            expected,
            actual,
        }) && field_number == tag.field_number && expected == 0 && actual == low_bits(
            tag.wire_type,
        ),
{
}

/// What was written of a key is read as that key.
pub proof fn law_key_reread(s: ScalarType, k: KeyModel, tag: Tag, tail: Seq<u8>)
    requires
        key_fits(s, k),
        key_bytes(s, k).len() <= usize::MAX,
    ensures
        take_key(s, tag, key_bytes(s, k) + tail) == Ok::<(KeyModel, Seq<u8>), DecodeError>(
            (k, tail),
        ),
{
    crate::scalar::lemma_take_key_bytes(s, k, tag, tail);
}

// ── Wire types ──────────────────────────────────────────────────────────────

/// The wire type of an element goes by the width of its bytes: eight, four, as
/// many as a length says, or a varint.
pub proof fn law_wire_types(kind: SingularKind, delimited: bool)
    ensures
        match element_wire(kind, delimited) {
            WireType::Fixed64 => kind matches SingularKind::Scalar(s) && (s is Double || s
                is Fixed64 || s is Sfixed64),
            WireType::Fixed32 => kind matches SingularKind::Scalar(s) && (s is Float || s
                is Fixed32 || s is Sfixed32),
            WireType::Varint => kind is Enum || (kind matches SingularKind::Scalar(s) && (s
                is Int32 || s is Int64 || s is Uint32 || s is Uint64 || s is Sint32 || s is Sint64
                || s is Bool)),
            WireType::LengthDelimited => kind is Message && !delimited || (
            kind matches SingularKind::Scalar(s) && (s is String || s is Bytes)),
            WireType::StartGroup => kind is Message && delimited,
            WireType::EndGroup => false,
        },
        packable(kind) <==> element_wire(kind, delimited) != WireType::LengthDelimited
            && element_wire(kind, delimited) != WireType::StartGroup,
{
}

/// A field may arrive with the wire type that it is written with; a message also
/// in its other form; a list also packed, or with the type of its elements; a
/// map entry as a payload.
pub proof fn law_wire_admits(kind: FieldKind, w: WireType)
    ensures
        match kind {
            FieldKind::Singular(k) => wire_admits(kind, w) <==> w == element_wire(k, false) || w
                == element_wire(k, true),
            FieldKind::List(k) => wire_admits(kind, w) <==> w == element_wire(k, false) || w
                == element_wire(k, true) || w == WireType::LengthDelimited,
            FieldKind::Mapping { key, value } => wire_admits(kind, w) <==> w
                == WireType::LengthDelimited,
        },
{
}

// ── Defaults and lengths ────────────────────────────────────────────────────

/// The default of a scalar type is the one value of the type that is zero, false
/// or empty.
pub proof fn law_scalar_default(s: ScalarType, v: ValueModel)
    ensures
        scalar_fits(s, scalar_default(s)),
        is_default(scalar_default(s)),
        scalar_fits(s, v) && is_default(v) ==> v == scalar_default(s),
        match scalar_default(s) {
            ValueModel::Bool(x) => !x,
            ValueModel::I32(x) => x == 0,
            ValueModel::I64(x) => x == 0,
            ValueModel::U32(x) => x == 0,
            ValueModel::U64(x) => x == 0,
            ValueModel::F32(x) => x == 0,
            ValueModel::F64(x) => x == 0,
            ValueModel::Text(x) => x == Seq::<char>::empty(),
            ValueModel::Bytes(x) => x == Seq::<u8>::empty(),
            _ => false,
        },
{
    if scalar_fits(s, v) && is_default(v) {
        match v {
            ValueModel::Text(x) => {
                assert(x =~= Seq::<char>::empty());
            },
            ValueModel::Bytes(x) => {
                assert(x =~= Seq::<u8>::empty());
            },
            _ => {},
        }
    }
}

/// A value is a default where it is that of some scalar type, or the enum number
/// zero.
pub proof fn law_is_default(v: ValueModel)
    ensures
        is_default(v) <==> v == ValueModel::EnumNumber(0) || exists|s: ScalarType|
            v == #[trigger] scalar_default(s),
{
    if is_default(v) {
        match v {
            ValueModel::Bool(_) => {
                assert(v == scalar_default(ScalarType::Bool));
            },
            ValueModel::I32(_) => {
                assert(v == scalar_default(ScalarType::Int32));
            },
            ValueModel::I64(_) => {
                assert(v == scalar_default(ScalarType::Int64));
            },
            ValueModel::U32(_) => {
                assert(v == scalar_default(ScalarType::Uint32));
            },
            ValueModel::U64(_) => {
                assert(v == scalar_default(ScalarType::Uint64));
            },
            ValueModel::F32(_) => {
                assert(v == scalar_default(ScalarType::Float));
            },
            ValueModel::F64(_) => {
                assert(v == scalar_default(ScalarType::Double));
            },
            ValueModel::Text(x) => {
                assert(x =~= Seq::<char>::empty());
                assert(v == scalar_default(ScalarType::String));
            },
            ValueModel::Bytes(x) => {
                assert(x =~= Seq::<u8>::empty());
                assert(v == scalar_default(ScalarType::Bytes));
            },
            _ => {},
        }
    }
}

/// The default of a type of keys is the default of the type.
pub proof fn law_key_default(s: ScalarType)
    requires
        !(s is Double || s is Float || s is Bytes),
    ensures
        key_fits(s, key_default(s)),
        key_value(key_default(s)) == scalar_default(s),
        is_default(key_value(key_default(s))),
{
}

/// A length is given as it is, and never as less than a shorter one.
pub proof fn law_capped(n: nat, k: nat)
    ensures
        n <= usize::MAX ==> capped(n) == n,
        n > usize::MAX ==> capped(n) == usize::MAX,
        k <= n ==> capped(k) <= capped(n),
{
}

/// What is read is what is said, with the bytes behind it, or the failure.
pub proof fn law_reads<T>(
    r: Result<(T, &[u8]), DecodeError>,
    m: Result<(T, Seq<u8>), DecodeError>,
)
    ensures
        crate::wire::reads(r, m) <==> match r {
            Ok(x) => m matches Ok(y) && x.0 == y.0 && x.1@ == y.1,
            Err(e) => m matches Err(y) && e == y,
        },
{
}

} // verus!
