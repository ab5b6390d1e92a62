//! JSON values: those that are written, those that are read, and the scalars
//! in both.
use vstd::prelude::*;
use serde::de::value::StrDeserializer;
use crate::descriptor::ScalarType;
use crate::shape::{scalar_fits, value_matches_scalar};
use crate::text::{decimal, decimal_text, signed_decimal, signed_text};
use crate::value::{KeyModel, MapKey, Value, ValueModel};

verus! {

/// Why a message could not be written as JSON or read from it.
#[derive(Debug)]
pub struct JsonError {
    pub text: String,
}

impl JsonError {
    pub open spec fn view(&self) -> Seq<char> {
        self.text@
    }

    pub(crate) fn new(text: &str) -> (r: Self)
        ensures
            r@ == text@,
    {
        JsonError { text: text.to_owned() }
    }
}

// ── JSON to write ───────────────────────────────────────────────────────────

/// A JSON value to be written. Floating-point numbers are held as their bits,
/// and are finite.
#[derive(Debug)]
pub enum Json {
    Null,
    Bool(bool),
    Int(i64),
    Double(u64),
    Float(u32),
    Text(String),
    Array(Vec<Json>),
    Object(Vec<(String, Json)>),
}

/// What a `Json` stands for.
#[verifier::ext_equal]
pub enum JsonModel {
    Null,
    Bool(bool),
    Int(i64),
    Double(u64),
    Float(u32),
    Text(Seq<char>),
    Array(Seq<JsonModel>),
    Object(Seq<(Seq<char>, JsonModel)>),
}

/// What the elements of an array stand for.
pub open spec fn array_view(items: Seq<Json>) -> Seq<JsonModel>
    decreases items,
{
    Seq::new(items.len(), |i: int| if 0 <= i < items.len() { items[i].view() } else { arbitrary() })
}

/// What the members of an object stand for.
pub open spec fn object_view(members: Seq<(String, Json)>) -> Seq<(Seq<char>, JsonModel)>
    decreases members,
{
    Seq::new(
        members.len(),
        |i: int|
            if 0 <= i < members.len() {
                (members[i].0@, members[i].1.view())
            } else {
                arbitrary()
            },
    )
}

impl Json {
    pub open spec fn view(&self) -> JsonModel
        decreases self,
    {
        match *self {
            Json::Null => JsonModel::Null,
            Json::Bool(b) => JsonModel::Bool(b),
            Json::Int(n) => JsonModel::Int(n),
            Json::Double(n) => JsonModel::Double(n),
            Json::Float(n) => JsonModel::Float(n),
            Json::Text(s) => JsonModel::Text(s@),
            Json::Array(a) => JsonModel::Array(array_view(a@)),
            Json::Object(o) => JsonModel::Object(object_view(o@)),
        }
    }
}

/// `r` is the executable form of `m`.
pub open spec fn writes(r: Result<Json, JsonError>, m: Result<JsonModel, Seq<char>>) -> bool {
    match m {
        Ok(j) => r is Ok && r->Ok_0@ == j,
        Err(e) => r is Err && r->Err_0@ == e,
    }
}

/// The bits of a double that is not a number.
pub open spec fn double_is_nan(bits: u64) -> bool {
    (bits / 0x10_0000_0000_0000) % 2048 == 2047 && bits % 0x10_0000_0000_0000 != 0
}

/// The bits of an infinite double.
pub open spec fn double_is_infinite(bits: u64) -> bool {
    (bits / 0x10_0000_0000_0000) % 2048 == 2047 && bits % 0x10_0000_0000_0000 == 0
}

/// The bits of a double that is a number and not infinite.
pub open spec fn double_is_finite(bits: u64) -> bool {
    !double_is_nan(bits) && !double_is_infinite(bits)
}

/// The bits of a float that is not a number.
pub open spec fn float_is_nan(bits: u32) -> bool {
    (bits / 0x80_0000) % 256 == 255 && bits % 0x80_0000 != 0
}

/// The bits of an infinite float.
pub open spec fn float_is_infinite(bits: u32) -> bool {
    (bits / 0x80_0000) % 256 == 255 && bits % 0x80_0000 == 0
}

/// A double in JSON: a number, or a string where it is not finite.
pub open spec fn double_json(bits: u64) -> JsonModel {
    if double_is_nan(bits) {
        JsonModel::Text("NaN"@)
    } else if double_is_infinite(bits) {
        if bits < 0x8000_0000_0000_0000 {
            JsonModel::Text("Infinity"@)
        } else {
            JsonModel::Text("-Infinity"@)
        }
    } else {
        JsonModel::Double(bits)
    }
}

/// A float in JSON: a number, or a string where it is not finite.
pub open spec fn float_json(bits: u32) -> JsonModel {
    if float_is_nan(bits) {
        JsonModel::Text("NaN"@)
    } else if float_is_infinite(bits) {
        if bits < 0x8000_0000 {
            JsonModel::Text("Infinity"@)
        } else {
            JsonModel::Text("-Infinity"@)
        }
    } else {
        JsonModel::Float(bits)
    }
}

/// Bytes as a base64 string.
pub uninterp spec fn base64_text(bytes: Seq<u8>) -> Seq<char>;

/// Bytes as a base64 string.
///
/// Calls `buffa::json_helpers::bytes::serialize`, which writes standard base64
/// with padding. The string that it writes is named; what it looks like is not
/// stated.
#[verifier::external_body]
fn to_base64(bytes: &[u8]) -> (r: String)
    ensures
        r@ == base64_text(bytes@),
{
    match buffa::json_helpers::bytes::serialize(bytes, serde_json::value::Serializer) {
        Ok(serde_json::Value::String(s)) => s,
        _ => String::new(),
    }
}

/// A scalar in JSON: numbers of 64 bits as strings, bytes in base64, and null
/// where the value is not of the type.
pub open spec fn scalar_json(s: ScalarType, v: ValueModel) -> JsonModel {
    if !scalar_fits(s, v) {
        JsonModel::Null
    } else {
        match v {
            ValueModel::Bool(b) => JsonModel::Bool(b),
            ValueModel::I32(n) => JsonModel::Int(n as i64),
            ValueModel::U32(n) => JsonModel::Int(n as i64),
            ValueModel::I64(n) => JsonModel::Text(signed_text(n as int)),
            ValueModel::U64(n) => JsonModel::Text(decimal_text(n as nat)),
            ValueModel::F32(n) => float_json(n),
            ValueModel::F64(n) => double_json(n),
            ValueModel::Text(t) => JsonModel::Text(t),
            ValueModel::Bytes(b) => JsonModel::Text(base64_text(b)),
            _ => JsonModel::Null,
        }
    }
}

fn write_double(bits: u64) -> (r: Json)
    ensures
        r@ == double_json(bits),
{
    if (bits / 0x10_0000_0000_0000) % 2048 != 2047 {
        Json::Double(bits)
    } else if bits % 0x10_0000_0000_0000 != 0 {
        Json::Text("NaN".to_owned())
    } else if bits < 0x8000_0000_0000_0000 {
        Json::Text("Infinity".to_owned())
    } else {
        Json::Text("-Infinity".to_owned())
    }
}

fn write_float(bits: u32) -> (r: Json)
    ensures
        r@ == float_json(bits),
{
    if (bits / 0x80_0000) % 256 != 255 {
        Json::Float(bits)
    } else if bits % 0x80_0000 != 0 {
        Json::Text("NaN".to_owned())
    } else if bits < 0x8000_0000 {
        Json::Text("Infinity".to_owned())
    } else {
        Json::Text("-Infinity".to_owned())
    }
}

/// Writes a scalar.
pub fn serialize_scalar(s: ScalarType, v: &Value) -> (r: Json)
    ensures
        r@ == scalar_json(s, v@),
{
    if !value_matches_scalar(s, v) {
        return Json::Null;
    }
    match v {
        Value::Bool(b) => Json::Bool(*b),
        Value::I32(n) => Json::Int(*n as i64),
        Value::U32(n) => Json::Int(*n as i64),
        Value::I64(n) => Json::Text(signed_decimal(*n)),
        Value::U64(n) => Json::Text(decimal(*n)),
        Value::F32(n) => write_float(*n),
        Value::F64(n) => write_double(*n),
        Value::String(t) => Json::Text(t.clone()),
        Value::Bytes(b) => Json::Text(to_base64(b.as_slice())),
        _ => Json::Null,
    }
}

/// A map key as the key of an object.
pub open spec fn key_text(k: KeyModel) -> Seq<char> {
    match k {
        KeyModel::Bool(b) => if b {
            "true"@
        } else {
            "false"@
        },
        KeyModel::I32(n) => signed_text(n as int),
        KeyModel::I64(n) => signed_text(n as int),
        KeyModel::U32(n) => decimal_text(n as nat),
        KeyModel::U64(n) => decimal_text(n as nat),
        KeyModel::Text(t) => t,
    }
}

/// Writes a map key as the key of an object.
pub fn serialize_key(k: &MapKey) -> (r: String)
    ensures
        r@ == key_text(k@),
{
    match k {
        MapKey::Bool(b) => if *b {
            "true".to_owned()
        } else {
            "false".to_owned()
        },
        MapKey::I32(n) => signed_decimal(*n as i64),
        MapKey::I64(n) => signed_decimal(*n),
        MapKey::U32(n) => decimal(*n as u64),
        MapKey::U64(n) => decimal(*n),
        MapKey::String(t) => t.clone(),
    }
}

// ── JSON that was read ──────────────────────────────────────────────────────

/// A whole number.
#[derive(Clone, Copy, Debug, PartialEq, Eq, Structural)]
pub enum JsonInteger {
    Signed(i64),
    Unsigned(u64),
}

/// A JSON number that was read.
#[derive(Clone, Copy, Debug, PartialEq, Eq, Structural)]
pub struct JsonNumber {
    /// The whole number that it is, if it is one that a reader can tell.
    pub integer: Option<JsonInteger>,
    /// The bits of the nearest double.
    pub double: u64,
    /// The bits of the nearest float, if it is finite.
    pub single: Option<u32>,
}

/// A JSON value that was read.
#[derive(Debug)]
pub enum JsonInput {
    Null,
    Bool(bool),
    Number(JsonNumber),
    Text(String),
    Array(Vec<JsonInput>),
    Object(Vec<(String, JsonInput)>),
}

/// What a `JsonInput` stands for.
#[verifier::ext_equal]
pub enum InputModel {
    Null,
    Bool(bool),
    Number(JsonNumber),
    Text(Seq<char>),
    Array(Seq<InputModel>),
    Object(Seq<(Seq<char>, InputModel)>),
}

/// What the elements of an array stand for.
pub open spec fn inputs_view(items: Seq<JsonInput>) -> Seq<InputModel>
    decreases items,
{
    Seq::new(items.len(), |i: int| if 0 <= i < items.len() { items[i].view() } else { arbitrary() })
}

/// What the members of an object stand for.
pub open spec fn members_view(members: Seq<(String, JsonInput)>) -> Seq<(Seq<char>, InputModel)>
    decreases members,
{
    Seq::new(
        members.len(),
        |i: int|
            if 0 <= i < members.len() {
                (members[i].0@, members[i].1.view())
            } else {
                arbitrary()
            },
    )
}

impl JsonInput {
    pub open spec fn view(&self) -> InputModel
        decreases self,
    {
        match *self {
            JsonInput::Null => InputModel::Null,
            JsonInput::Bool(b) => InputModel::Bool(b),
            JsonInput::Number(n) => InputModel::Number(n),
            JsonInput::Text(s) => InputModel::Text(s@),
            JsonInput::Array(a) => InputModel::Array(inputs_view(a@)),
            JsonInput::Object(o) => InputModel::Object(members_view(o@)),
        }
    }
}

/// The bits of a double, with one pattern for all that is not a number.
pub open spec fn quiet_double(bits: u64) -> u64 {
    if double_is_nan(bits) {
        0x7ff8_0000_0000_0000
    } else {
        bits
    }
}

/// The bits of a float, with one pattern for all that is not a number.
pub open spec fn quiet_float(bits: u32) -> u32 {
    if float_is_nan(bits) {
        0x7fc0_0000
    } else {
        bits
    }
}

fn to_quiet_double(bits: u64) -> (r: u64)
    ensures
        r == quiet_double(bits),
{
    if (bits / 0x10_0000_0000_0000) % 2048 == 2047 && bits % 0x10_0000_0000_0000 != 0 {
        0x7ff8_0000_0000_0000
    } else {
        bits
    }
}

fn to_quiet_float(bits: u32) -> (r: u32)
    ensures
        r == quiet_float(bits),
{
    if (bits / 0x80_0000) % 256 == 255 && bits % 0x80_0000 != 0 {
        0x7fc0_0000
    } else {
        bits
    }
}

/// The signed number that a string spells.
pub uninterp spec fn text_int64(s: Seq<char>) -> Option<i64>;

/// The unsigned number that a string spells.
pub uninterp spec fn text_uint64(s: Seq<char>) -> Option<u64>;

/// The bits of the double that a string spells.
pub uninterp spec fn text_double(s: Seq<char>) -> Option<u64>;

/// The bits of the float that a string spells.
pub uninterp spec fn text_float(s: Seq<char>) -> Option<u32>;

/// The bytes that a base64 string spells.
pub uninterp spec fn text_bytes(s: Seq<char>) -> Option<Seq<u8>>;

/// The signed number that a string spells.
///
/// Calls `buffa::json_helpers::int64::deserialize` on the string, which accepts
/// decimal and exponential spellings of whole numbers. The result is named; of
/// a number in plain decimal digits it is that number.
#[verifier::external_body]
fn parse_int64(s: &str) -> (r: Option<i64>)
    ensures
        r == text_int64(s@),
        forall|n: i64| s@ == #[trigger] signed_text(n as int) ==> r == Some(n),
{
    let d = StrDeserializer::<serde::de::value::Error>::new(s);
    buffa::json_helpers::int64::deserialize(d).ok()
}

/// The unsigned number that a string spells.
///
/// Calls `buffa::json_helpers::uint64::deserialize` on the string, which
/// accepts decimal and exponential spellings of whole numbers. The result is
/// named; of a number in plain decimal digits it is that number.
#[verifier::external_body]
fn parse_uint64(s: &str) -> (r: Option<u64>)
    ensures
        r == text_uint64(s@),
        forall|n: u64| s@ == #[trigger] decimal_text(n as nat) ==> r == Some(n),
{
    let d = StrDeserializer::<serde::de::value::Error>::new(s);
    buffa::json_helpers::uint64::deserialize(d).ok()
}

/// The bits of the double that a string spells.
///
/// Calls `buffa::json_helpers::double::deserialize` on the string, which
/// accepts numbers, `NaN`, `Infinity` and `-Infinity`. The result is named, but
/// for the bits of what is not a number, which may be any such bits; what the
/// three words spell is stated.
#[verifier::external_body]
fn parse_double(s: &str) -> (r: Option<u64>)
    ensures
        r is Some <==> text_double(s@) is Some,
        r matches Some(x) ==> quiet_double(x) == quiet_double(text_double(s@)->Some_0),
        s@ == "NaN"@ ==> r is Some && double_is_nan(r->Some_0),
        s@ == "Infinity"@ ==> r == Some(0x7ff0_0000_0000_0000u64),
        s@ == "-Infinity"@ ==> r == Some(0xfff0_0000_0000_0000u64),
{
    let d = StrDeserializer::<serde::de::value::Error>::new(s);
    buffa::json_helpers::double::deserialize(d).ok().map(|x| x.to_bits())
}

/// The bits of the float that a string spells.
///
/// Calls `buffa::json_helpers::float::deserialize` on the string, which accepts
/// numbers, `NaN`, `Infinity` and `-Infinity`. The result is named, but for the
/// bits of what is not a number, which may be any such bits; what the three
/// words spell is stated.
#[verifier::external_body]
fn parse_float(s: &str) -> (r: Option<u32>)
    ensures
        r is Some <==> text_float(s@) is Some,
        r matches Some(x) ==> quiet_float(x) == quiet_float(text_float(s@)->Some_0),
        s@ == "NaN"@ ==> r is Some && float_is_nan(r->Some_0),
        s@ == "Infinity"@ ==> r == Some(0x7f80_0000u32),
        s@ == "-Infinity"@ ==> r == Some(0xff80_0000u32),
{
    let d = StrDeserializer::<serde::de::value::Error>::new(s);
    buffa::json_helpers::float::deserialize(d).ok().map(|x| x.to_bits())
}

/// The bytes that a base64 string spells.
///
/// Calls `buffa::json_helpers::bytes::deserialize` on the string, which accepts
/// standard and URL-safe base64, padded or not. The result is named; of what
/// `to_base64` writes it is the bytes that were written.
#[verifier::external_body]
fn parse_bytes(s: &str) -> (r: Option<Vec<u8>>)
    ensures
        match text_bytes(s@) {
            Some(b) => r is Some && r->Some_0@ == b,
            None => r is None,
        },
        forall|b: Seq<u8>| s@ == #[trigger] base64_text(b) ==> r is Some && r->Some_0@ == b,
{
    let d = StrDeserializer::<serde::de::value::Error>::new(s);
    buffa::json_helpers::bytes::deserialize(d).ok()
}

/// The signed number that a JSON value spells: null is zero.
pub open spec fn input_int64(j: InputModel) -> Option<i64> {
    match j {
        InputModel::Null => Some(0),
        InputModel::Number(n) => match n.integer {
            Some(JsonInteger::Signed(v)) => Some(v),
            Some(JsonInteger::Unsigned(v)) => if v <= i64::MAX {
                Some(v as i64)
            } else {
                None
            },
            None => None,
        },
        InputModel::Text(s) => text_int64(s),
        _ => None,
    }
}

/// The unsigned number that a JSON value spells: null is zero.
pub open spec fn input_uint64(j: InputModel) -> Option<u64> {
    match j {
        InputModel::Null => Some(0),
        InputModel::Number(n) => match n.integer {
            Some(JsonInteger::Signed(v)) => if v >= 0 {
                Some(v as u64)
            } else {
                None
            },
            Some(JsonInteger::Unsigned(v)) => Some(v),
            None => None,
        },
        InputModel::Text(s) => text_uint64(s),
        _ => None,
    }
}

/// The bits of the double that a JSON value spells: null is zero.
pub open spec fn input_double(j: InputModel) -> Option<u64> {
    match j {
        InputModel::Null => Some(0),
        InputModel::Number(n) => Some(n.double),
        InputModel::Text(t) => match text_double(t) {
            Some(x) => Some(quiet_double(x)),
            None => None,
        },
        _ => None,
    }
}

/// The bits of the float that a JSON value spells: null is zero.
pub open spec fn input_float(j: InputModel) -> Option<u32> {
    match j {
        InputModel::Null => Some(0),
        InputModel::Number(n) => n.single,
        InputModel::Text(t) => match text_float(t) {
            Some(x) => Some(quiet_float(x)),
            None => None,
        },
        _ => None,
    }
}

/// The text of the failure to read a scalar.
pub open spec fn scalar_error(s: ScalarType) -> Seq<char> {
    match s {
        ScalarType::Double => "expected a double, or null"@,
        ScalarType::Float => "expected a float, or null"@,
        ScalarType::Int64 | ScalarType::Sfixed64 | ScalarType::Sint64 => "expected an i64 as a quoted decimal string, integer, float, or null"@,
        ScalarType::Uint64 | ScalarType::Fixed64 => "expected a u64 as a quoted decimal string, integer, float, or null"@,
        ScalarType::Int32 | ScalarType::Sfixed32 | ScalarType::Sint32 => "expected an i32 as integer, string, float, or null"@,
        ScalarType::Uint32 | ScalarType::Fixed32 => "expected a u32 as integer, string, float, or null"@,
        ScalarType::Bool => "expected a boolean or null"@,
        ScalarType::String => "expected a string or null"@,
        ScalarType::Bytes => "expected a base64-encoded string, or null"@,
    }
}

/// The scalar that a JSON value spells: null is the default.
pub open spec fn input_scalar(s: ScalarType, j: InputModel) -> Result<ValueModel, Seq<char>> {
    let v: Option<ValueModel> = match s {
        ScalarType::Double => match input_double(j) {
            Some(x) => Some(ValueModel::F64(x)),
            None => None,
        },
        ScalarType::Float => match input_float(j) {
            Some(x) => Some(ValueModel::F32(x)),
            None => None,
        },
        ScalarType::Int64 | ScalarType::Sfixed64 | ScalarType::Sint64 => match input_int64(j) {
            Some(x) => Some(ValueModel::I64(x)),
            None => None,
        },
        ScalarType::Uint64 | ScalarType::Fixed64 => match input_uint64(j) {
            Some(x) => Some(ValueModel::U64(x)),
            None => None,
        },
        ScalarType::Int32 | ScalarType::Sfixed32 | ScalarType::Sint32 => match input_int64(j) {
            Some(x) => if i32::MIN <= x <= i32::MAX {
                Some(ValueModel::I32(x as i32))
            } else {
                None
            },
            None => None,
        },
        ScalarType::Uint32 | ScalarType::Fixed32 => match input_uint64(j) {
            Some(x) => if x <= u32::MAX {
                Some(ValueModel::U32(x as u32))
            } else {
                None
            },
            None => None,
        },
        ScalarType::Bool => match j {
            InputModel::Null => Some(ValueModel::Bool(false)),
            InputModel::Bool(b) => Some(ValueModel::Bool(b)),
            _ => None,
        },
        ScalarType::String => match j {
            InputModel::Null => Some(ValueModel::Text(Seq::empty())),
            InputModel::Text(t) => Some(ValueModel::Text(t)),
            _ => None,
        },
        ScalarType::Bytes => match j {
            InputModel::Null => Some(ValueModel::Bytes(Seq::empty())),
            InputModel::Text(t) => match text_bytes(t) {
                Some(b) => Some(ValueModel::Bytes(b)),
                None => None,
            },
            _ => None,
        },
    };
    match v {
        Some(x) => Ok(x),
        None => Err(scalar_error(s)),
    }
}

fn read_int64(j: &JsonInput) -> (r: Option<i64>)
    ensures
        r == input_int64(j@),
        forall|n: i64|
            j@ == InputModel::Text(#[trigger] signed_text(n as int)) ==> r == Some(n),
{
    match j {
        JsonInput::Null => Some(0),
        JsonInput::Number(n) => match n.integer {
            Some(JsonInteger::Signed(v)) => Some(v),
            Some(JsonInteger::Unsigned(v)) => if v <= 0x7fff_ffff_ffff_ffff {
                Some(v as i64)
            } else {
                None
            },
            None => None,
        },
        JsonInput::Text(s) => parse_int64(s.as_str()),
        _ => None,
    }
}

fn read_uint64(j: &JsonInput) -> (r: Option<u64>)
    ensures
        r == input_uint64(j@),
        forall|n: u64|
            j@ == InputModel::Text(#[trigger] decimal_text(n as nat)) ==> r == Some(n),
{
    match j {
        JsonInput::Null => Some(0),
        JsonInput::Number(n) => match n.integer {
            Some(JsonInteger::Signed(v)) => if v >= 0 {
                Some(v as u64)
            } else {
                None
            },
            Some(JsonInteger::Unsigned(v)) => Some(v),
            None => None,
        },
        JsonInput::Text(s) => parse_uint64(s.as_str()),
        _ => None,
    }
}

fn read_double(j: &JsonInput) -> (r: Option<u64>)
    ensures
        r == input_double(j@),
        forall|x: u64|
            reads_as(#[trigger] double_json(x), j@) ==> r == Some(quiet_double(x)),
{
    match j {
        JsonInput::Null => Some(0),
        JsonInput::Number(n) => Some(n.double),
        JsonInput::Text(t) => {
            proof {
                assert forall|x: u64| double_is_infinite(x) implies x == (if x
                    < 0x8000_0000_0000_0000 {
                    0x7ff0_0000_0000_0000u64
                } else {
                    0xfff0_0000_0000_0000u64
                }) by {}
            }
            match parse_double(t.as_str()) {
                Some(x) => Some(to_quiet_double(x)),
                None => None,
            }
        },
        _ => None,
    }
}

fn read_float(j: &JsonInput) -> (r: Option<u32>)
    ensures
        r == input_float(j@),
        forall|x: u32| reads_as(#[trigger] float_json(x), j@) ==> r == Some(quiet_float(x)),
{
    match j {
        JsonInput::Null => Some(0),
        JsonInput::Number(n) => n.single,
        JsonInput::Text(t) => {
            proof {
                assert forall|x: u32| float_is_infinite(x) implies x == (if x < 0x8000_0000 {
                    0x7f80_0000u32
                } else {
                    0xff80_0000u32
                }) by {}
            }
            match parse_float(t.as_str()) {
                Some(x) => Some(to_quiet_float(x)),
                None => None,
            }
        },
        _ => None,
    }
}

/// `i` is `j` after it was written and read.
pub open spec fn reads_as(j: JsonModel, i: InputModel) -> bool
    decreases j,
{
    match (j, i) {
        (JsonModel::Null, InputModel::Null) => true,
        (JsonModel::Bool(a), InputModel::Bool(b)) => a == b,
        (JsonModel::Int(n), InputModel::Number(x)) => match x.integer {
            Some(JsonInteger::Signed(v)) => v == n,
            Some(JsonInteger::Unsigned(v)) => v == n,
            None => false,
        },
        (JsonModel::Double(n), InputModel::Number(x)) => x.double == n,
        (JsonModel::Float(n), InputModel::Number(x)) => x.single == Some(n),
        (JsonModel::Text(a), InputModel::Text(b)) => a == b,
        (JsonModel::Array(a), InputModel::Array(b)) => a.len() == b.len() && forall|k: int|
            0 <= k < a.len() ==> reads_as(#[trigger] a[k], b[k]),
        (JsonModel::Object(a), InputModel::Object(b)) => a.len() == b.len() && forall|k: int|
            0 <= k < a.len() ==> (#[trigger] a[k]).0 == b[k].0 && reads_as(a[k].1, b[k].1),
        _ => false,
    }
}

/// The value, with one pattern of bits for all that is not a number.
pub open spec fn quiet_value(v: ValueModel) -> ValueModel {
    match v {
        ValueModel::F32(x) => ValueModel::F32(quiet_float(x)),
        ValueModel::F64(x) => ValueModel::F64(quiet_double(x)),
        _ => v,
    }
}

/// Reads a scalar. What `serialize_scalar` writes of a value of the type reads
/// as that value.
pub fn deserialize_scalar(s: ScalarType, j: &JsonInput) -> (r: Result<Value, JsonError>)
    ensures
        match input_scalar(s, j@) {
            Ok(v) => r is Ok && r->Ok_0@ == v,
            Err(e) => r is Err && r->Err_0@ == e,
        },
        forall|v: ValueModel|
            scalar_fits(s, v) && reads_as(#[trigger] scalar_json(s, v), j@) ==> r is Ok
                && r->Ok_0@ == quiet_value(v),
{
    match s {
        ScalarType::Double => match read_double(j) {
            Some(x) => Ok(Value::F64(x)),
            None => Err(JsonError::new("expected a double, or null")),
        },
        ScalarType::Float => match read_float(j) {
            Some(x) => Ok(Value::F32(x)),
            None => Err(JsonError::new("expected a float, or null")),
        },
        ScalarType::Int64 | ScalarType::Sfixed64 | ScalarType::Sint64 => match read_int64(j) {
            Some(x) => Ok(Value::I64(x)),
            None => Err(
                JsonError::new(
                    "expected an i64 as a quoted decimal string, integer, float, or null",
                ),
            ),
        },
        ScalarType::Uint64 | ScalarType::Fixed64 => match read_uint64(j) {
            Some(x) => Ok(Value::U64(x)),
            None => Err(
                JsonError::new(
                    "expected a u64 as a quoted decimal string, integer, float, or null",
                ),
            ),
        },
        ScalarType::Int32 | ScalarType::Sfixed32 | ScalarType::Sint32 => {
            if let Some(x) = read_int64(j) {
                if -0x8000_0000 <= x && x <= 0x7fff_ffff {
                    return Ok(Value::I32(x as i32));
                }
            }
            Err(JsonError::new("expected an i32 as integer, string, float, or null"))
        },
        ScalarType::Uint32 | ScalarType::Fixed32 => {
            if let Some(x) = read_uint64(j) {
                if x <= 0xffff_ffff {
                    return Ok(Value::U32(x as u32));
                }
            }
            Err(JsonError::new("expected a u32 as integer, string, float, or null"))
        },
        ScalarType::Bool => match j {
            JsonInput::Null => Ok(Value::Bool(false)),
            JsonInput::Bool(b) => Ok(Value::Bool(*b)),
            _ => Err(JsonError::new("expected a boolean or null")),
        },
        ScalarType::String => match j {
            JsonInput::Null => Ok(Value::String(String::new())),
            JsonInput::Text(t) => Ok(Value::String(t.clone())),
            _ => Err(JsonError::new("expected a string or null")),
        },
        ScalarType::Bytes => {
            match j {
                JsonInput::Null => return Ok(Value::Bytes(Vec::new())),
                JsonInput::Text(t) => {
                    if let Some(b) = parse_bytes(t.as_str()) {
                        return Ok(Value::Bytes(b));
                    }
                },
                _ => {},
            }
            Err(JsonError::new("expected a base64-encoded string, or null"))
        },
    }
}

} // verus!
