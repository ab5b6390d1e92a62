//! What is found by number, by name and by `type_url`.
use vstd::prelude::*;
use crate::any::any_type;
use crate::descriptor::{
    enum_is_closed, enum_knows, extension_at, field_at, field_of, index_of, message_at,
    DescriptorPool, EnumIndex, EnumType, ExtensionDescriptor, FieldDescriptor, MessageDescriptor,
    MessageIndex, ScalarType,
};
use crate::text::{decimal_text, digit_text, last_segment, signed_text};
use crate::wkt::{wkt_of, WktKind};

verus! {

// ── Fields ──────────────────────────────────────────────────────────────────

proof fn lemma_field_found(fields: Seq<FieldDescriptor>, number: u32, i: nat)
    ensures
        match field_at(fields, number, i) {
            Some(k) => i <= k < fields.len() && fields[k as int].number == number && forall|j: int|
                i <= j < k ==> (#[trigger] fields[j]).number != number,
            None => forall|j: int|
                i <= j < fields.len() ==> (#[trigger] fields[j]).number != number,
        },
    decreases fields.len() - i,
{
    if i < fields.len() && fields[i as int].number != number {
        lemma_field_found(fields, number, i + 1);
    }
}

proof fn lemma_extension_found(
    all: Seq<ExtensionDescriptor>,
    index: MessageIndex,
    number: u32,
    i: nat,
)
    ensures
        match extension_at(all, index, number, i) {
            Some(k) => i <= k < all.len() && extends(all[k as int], index, number) && forall|j: int|
                i <= j < k ==> !extends(#[trigger] all[j], index, number),
            None => forall|j: int|
                i <= j < all.len() ==> !extends(#[trigger] all[j], index, number),
        },
    decreases all.len() - i,
{
    if i < all.len() && !extends(all[i as int], index, number) {
        lemma_extension_found(all, index, number, i + 1);
    }
}

/// The extension adds a field of the number to the message.
pub open spec fn extends(e: ExtensionDescriptor, index: MessageIndex, number: u32) -> bool {
    e.extendee == index && e.field.number == number
}

/// A number is admitted by a range that begins at or before it and ends behind
/// it.
pub open spec fn is_open_to(md: MessageDescriptor, number: u32) -> bool {
    exists|i: int|
        0 <= i < md.extension_ranges@.len() && (#[trigger] md.extension_ranges@[i]).0 <= number
            < md.extension_ranges@[i].1
}

/// The field of a number is one that the message declares under it; where it
/// declares none, an extension of it that one of its ranges admits; and where
/// there is neither, none.
pub proof fn law_field_of(pool: DescriptorPool, index: MessageIndex, number: u32)
    ensures
        ({
            let md = pool.message_seq()[index.0 as int];
            let own = exists|i: int|
                0 <= i < md.fields@.len() && (#[trigger] md.fields@[i]).number == number;
            let added = exists|i: int|
                0 <= i < pool.extension_seq().len() && extends(
                    #[trigger] pool.extension_seq()[i],
                    index,
                    number,
                );
            match field_of(pool, index, number) {
                Some(f) => {
                    &&& f.number == number
                    &&& own ==> exists|i: int|
                        0 <= i < md.fields@.len() && #[trigger] md.fields@[i] == f
                    &&& !own ==> is_open_to(md, number) && exists|i: int|
                        0 <= i < pool.extension_seq().len() && extends(
                            #[trigger] pool.extension_seq()[i],
                            index,
                            number,
                        ) && pool.extension_seq()[i].field == f
                },
                None => !own && !(is_open_to(md, number) && added),
            }
        }),
{
    let md = pool.message_seq()[index.0 as int];
    lemma_field_found(md.fields@, number, 0);
    lemma_extension_found(pool.extension_seq(), index, number, 0);
}

/// A field that the message declares under a number of its own is the field of
/// that number.
pub proof fn law_field_declared(pool: DescriptorPool, index: MessageIndex, i: int)
    requires
        0 <= i < pool.message_seq()[index.0 as int].fields@.len(),
        forall|j: int|
            0 <= j < i ==> (#[trigger] pool.message_seq()[index.0 as int].fields@[j]).number
                != pool.message_seq()[index.0 as int].fields@[i].number,
    ensures
        field_of(pool, index, pool.message_seq()[index.0 as int].fields@[i].number) == Some(
            pool.message_seq()[index.0 as int].fields@[i],
        ),
{
    let md = pool.message_seq()[index.0 as int];
    lemma_field_found(md.fields@, md.fields@[i].number, 0);
}

// ── Messages and enums ──────────────────────────────────────────────────────

proof fn lemma_message_found(messages: Seq<MessageDescriptor>, name: Seq<char>, i: nat)
    ensures
        match message_at(messages, name, i) {
            Some(k) => i <= k < messages.len() && messages[k as int].full_name@ == name
                && forall|j: int| i <= j < k ==> (#[trigger] messages[j]).full_name@ != name,
            None => forall|j: int|
                i <= j < messages.len() ==> (#[trigger] messages[j]).full_name@ != name,
        },
    decreases messages.len() - i,
{
    if i < messages.len() && messages[i as int].full_name@ != name {
        lemma_message_found(messages, name, i + 1);
    }
}

/// The index of a name is that of the first message that has it.
pub proof fn law_index_of(pool: DescriptorPool, name: Seq<char>)
    requires
        pool.message_seq().len() <= usize::MAX,
    ensures
        match index_of(pool, name) {
            Some(i) => i.0 < pool.message_seq().len() && pool.message_seq()[i.0 as int].full_name@
                == name && forall|j: int|
                0 <= j < i.0 ==> (#[trigger] pool.message_seq()[j]).full_name@ != name,
            None => forall|j: int|
                0 <= j < pool.message_seq().len() ==> (
                #[trigger] pool.message_seq()[j]).full_name@ != name,
        },
{
    lemma_message_found(pool.message_seq(), name, 0);
}

/// An enum is closed where the field says so or, where the field says nothing,
/// where the enum does. Every number is a value of an open enum, and those that
/// it declares are the values of a closed one.
pub proof fn law_enum_values(pool: DescriptorPool, e: EnumIndex, t: Option<EnumType>, n: i32)
    ensures
        t == Some(EnumType::Open) ==> enum_knows(pool, e, t, n),
        t is None && pool.enum_seq()[e.0 as int].enum_type is Open ==> enum_knows(pool, e, t, n),
        t == Some(EnumType::Closed) || t is None && pool.enum_seq()[e.0 as int].enum_type is Closed
            ==> (enum_knows(pool, e, t, n) <==> exists|i: int|
            0 <= i < pool.enum_seq()[e.0 as int].values@.len() && (
            #[trigger] pool.enum_seq()[e.0 as int].values@[i]).number == n),
        enum_is_closed(pool, e, t) <==> t == Some(EnumType::Closed) || t is None
            && pool.enum_seq()[e.0 as int].enum_type is Closed,
{
}

// ── Names ───────────────────────────────────────────────────────────────────

/// What stands behind the last slash of a text holds none, and what stands in
/// front of it is nothing or ends in one.
pub proof fn law_last_segment(s: Seq<char>)
    ensures
        last_segment(s).len() <= s.len(),
        forall|i: int|
            0 <= i < last_segment(s).len() ==> #[trigger] last_segment(s)[i] == s[s.len()
                - last_segment(s).len() + i],
        forall|i: int| 0 <= i < last_segment(s).len() ==> #[trigger] last_segment(s)[i] != '/',
        last_segment(s).len() < s.len() ==> s[s.len() - last_segment(s).len() - 1] == '/',
    decreases s.len(),
{
    if s.len() > 0 && s.last() != '/' {
        law_last_segment(s.drop_last());
    }
}

/// A `type_url` names the message whose full name stands behind its last slash.
pub proof fn law_any_type(pool: DescriptorPool, url: Seq<char>)
    ensures
        any_type(pool, url) == index_of(pool, last_segment(url)),
{
}

/// Which names are those of well-known types, and of which.
pub proof fn law_wkt_names(name: Seq<char>)
    ensures
        wkt_of(name) matches Some(w) ==> match w {
            WktKind::Timestamp => name == "google.protobuf.Timestamp"@,
            WktKind::Duration => name == "google.protobuf.Duration"@,
            WktKind::FieldMask => name == "google.protobuf.FieldMask"@,
            WktKind::Empty => name == "google.protobuf.Empty"@,
            WktKind::Struct => name == "google.protobuf.Struct"@,
            WktKind::JsonValue => name == "google.protobuf.Value"@,
            WktKind::ListValue => name == "google.protobuf.ListValue"@,
            WktKind::Any => name == "google.protobuf.Any"@,
            WktKind::Wrapper(s) => match s {
                ScalarType::Double => name == "google.protobuf.DoubleValue"@,
                ScalarType::Float => name == "google.protobuf.FloatValue"@,
                ScalarType::Int64 => name == "google.protobuf.Int64Value"@,
                ScalarType::Uint64 => name == "google.protobuf.UInt64Value"@,
                ScalarType::Int32 => name == "google.protobuf.Int32Value"@,
                ScalarType::Uint32 => name == "google.protobuf.UInt32Value"@,
                ScalarType::Bool => name == "google.protobuf.BoolValue"@,
                ScalarType::String => name == "google.protobuf.StringValue"@,
                ScalarType::Bytes => name == "google.protobuf.BytesValue"@,
                _ => false,
            },
        },
        wkt_of(name) is None ==> {
            &&& name != "google.protobuf.Timestamp"@
            &&& name != "google.protobuf.Duration"@
            &&& name != "google.protobuf.FieldMask"@
            &&& name != "google.protobuf.Empty"@
            &&& name != "google.protobuf.Struct"@
            &&& name != "google.protobuf.Value"@
            &&& name != "google.protobuf.ListValue"@
            &&& name != "google.protobuf.Any"@
            &&& name != "google.protobuf.DoubleValue"@
            &&& name != "google.protobuf.FloatValue"@
            &&& name != "google.protobuf.Int64Value"@
            &&& name != "google.protobuf.UInt64Value"@
            &&& name != "google.protobuf.Int32Value"@
            &&& name != "google.protobuf.UInt32Value"@
            &&& name != "google.protobuf.BoolValue"@
            &&& name != "google.protobuf.StringValue"@
            &&& name != "google.protobuf.BytesValue"@
        },
{
}

/// Which type each of the names is that of.
pub proof fn law_wkt_kinds()
    ensures
        wkt_of("google.protobuf.Timestamp"@) == Some(WktKind::Timestamp),
        wkt_of("google.protobuf.Duration"@) == Some(WktKind::Duration),
        wkt_of("google.protobuf.FieldMask"@) == Some(WktKind::FieldMask),
        wkt_of("google.protobuf.Empty"@) == Some(WktKind::Empty),
        wkt_of("google.protobuf.Struct"@) == Some(WktKind::Struct),
        wkt_of("google.protobuf.Value"@) == Some(WktKind::JsonValue),
        wkt_of("google.protobuf.ListValue"@) == Some(WktKind::ListValue),
        wkt_of("google.protobuf.Any"@) == Some(WktKind::Any),
        wkt_of("google.protobuf.DoubleValue"@) == Some(WktKind::Wrapper(ScalarType::Double)),
        wkt_of("google.protobuf.FloatValue"@) == Some(WktKind::Wrapper(ScalarType::Float)),
        wkt_of("google.protobuf.Int64Value"@) == Some(WktKind::Wrapper(ScalarType::Int64)),
        wkt_of("google.protobuf.UInt64Value"@) == Some(WktKind::Wrapper(ScalarType::Uint64)),
        wkt_of("google.protobuf.Int32Value"@) == Some(WktKind::Wrapper(ScalarType::Int32)),
        wkt_of("google.protobuf.UInt32Value"@) == Some(WktKind::Wrapper(ScalarType::Uint32)),
        wkt_of("google.protobuf.BoolValue"@) == Some(WktKind::Wrapper(ScalarType::Bool)),
        wkt_of("google.protobuf.StringValue"@) == Some(WktKind::Wrapper(ScalarType::String)),
        wkt_of("google.protobuf.BytesValue"@) == Some(WktKind::Wrapper(ScalarType::Bytes)),
{
    reveal_strlit("google.protobuf.Timestamp");
    reveal_strlit("google.protobuf.Duration");
    reveal_strlit("google.protobuf.FieldMask");
    reveal_strlit("google.protobuf.Empty");
    reveal_strlit("google.protobuf.Struct");
    reveal_strlit("google.protobuf.Value");
    reveal_strlit("google.protobuf.ListValue");
    reveal_strlit("google.protobuf.Any");
    reveal_strlit("google.protobuf.DoubleValue");
    reveal_strlit("google.protobuf.FloatValue");
    reveal_strlit("google.protobuf.Int64Value");
    reveal_strlit("google.protobuf.UInt64Value");
    reveal_strlit("google.protobuf.Int32Value");
    reveal_strlit("google.protobuf.UInt32Value");
    reveal_strlit("google.protobuf.BoolValue");
    reveal_strlit("google.protobuf.StringValue");
    reveal_strlit("google.protobuf.BytesValue");
    assert("google.protobuf.Timestamp"@.len() == 25);
    assert("google.protobuf.Timestamp"@[16] == 'T');
    assert("google.protobuf.Duration"@.len() == 24);
    assert("google.protobuf.Duration"@[16] == 'D');
    assert("google.protobuf.FieldMask"@.len() == 25);
    assert("google.protobuf.FieldMask"@[16] == 'F');
    assert("google.protobuf.Empty"@.len() == 21);
    assert("google.protobuf.Empty"@[16] == 'E');
    assert("google.protobuf.Struct"@.len() == 22);
    assert("google.protobuf.Struct"@[16] == 'S');
    assert("google.protobuf.Value"@.len() == 21);
    assert("google.protobuf.Value"@[16] == 'V');
    assert("google.protobuf.ListValue"@.len() == 25);
    assert("google.protobuf.ListValue"@[16] == 'L');
    assert("google.protobuf.Any"@.len() == 19);
    assert("google.protobuf.Any"@[16] == 'A');
    assert("google.protobuf.DoubleValue"@.len() == 27);
    assert("google.protobuf.DoubleValue"@[16] == 'D');
    assert("google.protobuf.FloatValue"@.len() == 26);
    assert("google.protobuf.FloatValue"@[16] == 'F');
    assert("google.protobuf.Int64Value"@.len() == 26);
    assert("google.protobuf.Int64Value"@[16] == 'I');
    assert("google.protobuf.Int64Value"@[19] == '6');
    assert("google.protobuf.UInt64Value"@.len() == 27);
    assert("google.protobuf.UInt64Value"@[16] == 'U');
    assert("google.protobuf.UInt64Value"@[20] == '6');
    assert("google.protobuf.Int32Value"@.len() == 26);
    assert("google.protobuf.Int32Value"@[16] == 'I');
    assert("google.protobuf.Int32Value"@[19] == '3');
    assert("google.protobuf.UInt32Value"@.len() == 27);
    assert("google.protobuf.UInt32Value"@[16] == 'U');
    assert("google.protobuf.UInt32Value"@[20] == '3');
    assert("google.protobuf.BoolValue"@.len() == 25);
    assert("google.protobuf.BoolValue"@[16] == 'B');
    assert("google.protobuf.StringValue"@.len() == 27);
    assert("google.protobuf.StringValue"@[16] == 'S');
    assert("google.protobuf.BytesValue"@.len() == 26);
    assert("google.protobuf.BytesValue"@[16] == 'B');
}

// ── Numbers in decimal ──────────────────────────────────────────────────────

/// The number that decimal digits make up.
pub open spec fn digits_value(s: Seq<char>) -> nat
    decreases s.len(),
{
    if s.len() == 0 {
        0
    } else {
        10 * digits_value(s.drop_last()) + (s.last() as nat - '0' as nat) as nat
    }
}

proof fn lemma_digit(d: nat)
    requires
        d < 10,
    ensures
        digit_text(d).len() == 1,
        digit_text(d)[0] as nat == '0' as nat + d,
        '0' <= digit_text(d)[0] <= '9',
{
    reveal_strlit("0");
    reveal_strlit("1");
    reveal_strlit("2");
    reveal_strlit("3");
    reveal_strlit("4");
    reveal_strlit("5");
    reveal_strlit("6");
    reveal_strlit("7");
    reveal_strlit("8");
    reveal_strlit("9");
}

/// The decimal digits of a number make it up, and the first is zero only where
/// the number is.
pub proof fn law_decimal(n: nat)
    ensures
        decimal_text(n).len() > 0,
        digits_value(decimal_text(n)) == n,
        forall|i: int|
            0 <= i < decimal_text(n).len() ==> '0' <= #[trigger] decimal_text(n)[i] <= '9',
        n > 0 ==> decimal_text(n)[0] != '0',
    decreases n,
{
    let t = decimal_text(n);
    if n < 10 {
        lemma_digit(n);
        assert(t =~= seq![t[0]]);
        assert(digits_value(t.drop_last()) == 0);
    } else {
        let a = decimal_text(n / 10);
        let b = digit_text(n % 10);
        law_decimal(n / 10);
        lemma_digit(n % 10);
        assert(t == a + b);
        assert(t.drop_last() =~= a);
        assert forall|i: int| 0 <= i < t.len() implies '0' <= #[trigger] t[i] <= '9' by {
            if i < a.len() {
                assert(t[i] == a[i]);
            } else {
                assert(t[i] == b[0]);
            }
        }
        assert(t[0] == a[0]);
    }
}

/// A negative number is a minus sign in front of the digits of what it is below
/// zero; any other is its digits.
pub proof fn law_signed(n: int)
    ensures
        n >= 0 ==> signed_text(n) == decimal_text(n as nat),
        n < 0 ==> signed_text(n) == seq!['-'] + decimal_text((-n) as nat),
{
    reveal_strlit("-");
    assert("-"@ =~= seq!['-']);
}

} // verus!
