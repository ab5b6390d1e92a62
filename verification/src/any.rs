//! `google.protobuf.Any`: a message wrapped as its type name and its bytes.
use vstd::prelude::*;
use crate::decode::{decoded, default_options};
use crate::descriptor::{index_of, share_pool, DescriptorPool, MessageIndex};
use crate::encode::message_bytes;
use crate::shape::full_name;
use crate::text::{after_last_slash, join2, join3, last_segment, quoted, quoted_text, same_text};
use crate::value::{
    empty_message, field_get, with_field, DynamicMessage, MessageModel, Value, ValueModel,
};
use crate::wire::{decode_error_text, DecodeError, MAX_MESSAGE_BYTES};

verus! {

/// Why a message was not packed or unpacked.
#[derive(Debug)]
pub enum AnyError {
    /// The message to unpack is not a `google.protobuf.Any`.
    NotAny {
        /// The type that it is.
        full_name: String,
    },
    /// The pool does not hold `google.protobuf.Any`.
    AnyNotRegistered,
    /// The `Any` has no `type_url`: it is absent, empty, or not a string.
    MissingTypeUrl,
    /// The `type_url` names a type that the pool does not hold.
    UnknownType { type_url: String },
    /// The message to pack encodes past `MAX_MESSAGE_BYTES`.
    MessageTooLarge,
    /// The wrapped bytes do not decode as the type that the `type_url` names.
    Decode { type_url: String, source: DecodeError },
}

/// What an `AnyError` stands for.
#[verifier::ext_equal]
pub enum AnyErrorModel {
    NotAny { full_name: Seq<char> },
    AnyNotRegistered,
    MissingTypeUrl,
    UnknownType { type_url: Seq<char> },
    MessageTooLarge,
    Decode { type_url: Seq<char>, source: DecodeError },
}

impl AnyError {
    pub open spec fn view(&self) -> AnyErrorModel {
        match *self {
            AnyError::NotAny { full_name } => AnyErrorModel::NotAny { full_name: full_name@ },
            AnyError::AnyNotRegistered => AnyErrorModel::AnyNotRegistered,
            AnyError::MissingTypeUrl => AnyErrorModel::MissingTypeUrl,
            AnyError::UnknownType { type_url } => AnyErrorModel::UnknownType {
                type_url: type_url@,
            },
            AnyError::MessageTooLarge => AnyErrorModel::MessageTooLarge,
            AnyError::Decode { type_url, source } => AnyErrorModel::Decode {
                type_url: type_url@,
                source,
            },
        }
    }

    /// What the error is called.
    pub fn text(&self) -> (r: String)
        ensures
            r@ == any_error_text(self@),
    {
        match self {
            AnyError::NotAny { full_name } => join2(
                "not a google.protobuf.Any: ",
                full_name.as_str(),
            ),
            AnyError::AnyNotRegistered => {
                "google.protobuf.Any is not registered in the pool".to_owned()
            },
            AnyError::MissingTypeUrl => "Any has no type_url".to_owned(),
            AnyError::MessageTooLarge => {
                "packed message exceeds the 2 GiB protobuf limit".to_owned()
            },
            AnyError::UnknownType { type_url } => join3(
                "Any type_url ",
                quoted(type_url.as_str()).as_str(),
                " not registered in the pool",
            ),
            AnyError::Decode { type_url, source } => {
                let front = join3(
                    "Any value for ",
                    quoted(type_url.as_str()).as_str(),
                    " failed to decode: ",
                );
                join2(front.as_str(), source.text().as_str())
            },
        }
    }
}

impl Clone for AnyError {
    fn clone(&self) -> (r: Self)
        ensures
            r@ == self@,
    {
        match self {
            AnyError::NotAny { full_name } => AnyError::NotAny { full_name: full_name.clone() },
            AnyError::AnyNotRegistered => AnyError::AnyNotRegistered,
            AnyError::MissingTypeUrl => AnyError::MissingTypeUrl,
            AnyError::UnknownType { type_url } => AnyError::UnknownType {
                type_url: type_url.clone(),
            },
            AnyError::MessageTooLarge => AnyError::MessageTooLarge,
            AnyError::Decode { type_url, source } => AnyError::Decode {
                type_url: type_url.clone(),
                source: *source,
            },
        }
    }
}

/// What an error is called.
pub open spec fn any_error_text(e: AnyErrorModel) -> Seq<char> {
    match e {
        AnyErrorModel::NotAny { full_name } => "not a google.protobuf.Any: "@ + full_name,
        AnyErrorModel::AnyNotRegistered => "google.protobuf.Any is not registered in the pool"@,
        AnyErrorModel::MissingTypeUrl => "Any has no type_url"@,
        AnyErrorModel::MessageTooLarge => "packed message exceeds the 2 GiB protobuf limit"@,
        AnyErrorModel::UnknownType { type_url } => "Any type_url "@ + quoted_text(type_url)
            + " not registered in the pool"@,
        AnyErrorModel::Decode { type_url, source } => "Any value for "@ + quoted_text(type_url)
            + " failed to decode: "@ + decode_error_text(source),
    }
}

/// The full name of `google.protobuf.Any`.
pub open spec fn any_name() -> Seq<char> {
    "google.protobuf.Any"@
}

/// The string in field `n`; empty where there is none.
pub open spec fn text_at(m: MessageModel, n: u32) -> Seq<char> {
    match field_get(m.fields, n) {
        Some(ValueModel::Text(s)) => s,
        _ => Seq::empty(),
    }
}

/// The bytes in field `n`; none where there are none.
pub open spec fn bytes_at(m: MessageModel, n: u32) -> Seq<u8> {
    match field_get(m.fields, n) {
        Some(ValueModel::Bytes(b)) => b,
        _ => Seq::empty(),
    }
}

/// The type that a `type_url` names: the part behind its last slash.
pub open spec fn any_type(pool: DescriptorPool, type_url: Seq<char>) -> Option<MessageIndex> {
    index_of(pool, last_segment(type_url))
}

/// The message wrapped in `m`.
pub open spec fn unpacked(m: MessageModel) -> Result<MessageModel, AnyErrorModel> {
    let url = text_at(m, 1);
    if full_name(m) != any_name() {
        Err(AnyErrorModel::NotAny { full_name: full_name(m) })
    } else if url.len() == 0 {
        Err(AnyErrorModel::MissingTypeUrl)
    } else {
        match any_type(m.pool, url) {
            None => Err(AnyErrorModel::UnknownType { type_url: url }),
            Some(i) => match decoded(m.pool, i, bytes_at(m, 2), default_options()) {
                Ok(x) => Ok(x),
                Err(e) => Err(AnyErrorModel::Decode { type_url: url, source: e }),
            },
        }
    }
}

/// The `Any` that wraps `m`.
pub open spec fn packed(m: MessageModel) -> Result<MessageModel, AnyErrorModel> {
    match index_of(m.pool, any_name()) {
        None => Err(AnyErrorModel::AnyNotRegistered),
        Some(i) => if message_bytes(m).len() > MAX_MESSAGE_BYTES {
            Err(AnyErrorModel::MessageTooLarge)
        } else {
            Ok(
                with_field(
                    with_field(
                        empty_message(m.pool, i),
                        1,
                        ValueModel::Text("type.googleapis.com/"@ + full_name(m)),
                    ),
                    2,
                    ValueModel::Bytes(message_bytes(m)),
                ),
            )
        },
    }
}

/// `r` is the executable form of `m`.
pub open spec fn wraps(
    r: Result<DynamicMessage, AnyError>,
    m: Result<MessageModel, AnyErrorModel>,
) -> bool {
    match m {
        Ok(x) => r is Ok && r->Ok_0@ == x,
        Err(e) => r is Err && r->Err_0@ == e,
    }
}

/// The type that a `type_url` names. Any prefix is accepted; the name is the
/// part behind the last slash.
pub fn resolve_any_type(pool: &DescriptorPool, type_url: &str) -> (r: Option<MessageIndex>)
    ensures
        r == any_type(*pool, type_url@),
        r matches Some(i) ==> i.0 < pool.message_seq().len(),
{
    pool.message_index(after_last_slash(type_url))
}

impl DynamicMessage {
    /// The string in field `number`; empty where there is none.
    pub(crate) fn read_text(&self, number: u32) -> (r: &str)
        ensures
            r@ == text_at(self@, number),
    {
        match self.field_by_number(number) {
            Some(Value::String(s)) => s.as_str(),
            _ => {
                proof {
                    reveal_strlit("");
                    assert(""@ =~= Seq::<char>::empty());
                }
                ""
            },
        }
    }

    /// The bytes in field `number`; none where there are none.
    pub(crate) fn read_bytes(&self, number: u32) -> (r: &[u8])
        ensures
            r@ == bytes_at(self@, number),
    {
        match self.field_by_number(number) {
            Some(Value::Bytes(b)) => b.as_slice(),
            _ => {
                let none: &[u8] = &[];
                assert(none@ =~= Seq::<u8>::empty());
                none
            },
        }
    }

    /// Decodes the message wrapped in this `google.protobuf.Any`.
    ///
    /// An `Any` whose value is absent or empty wraps a message of the named
    /// type with nothing set.
    pub fn unpack_any(&self) -> (r: Result<DynamicMessage, AnyError>)
        ensures
            wraps(r, unpacked(self@)),
    {
        let name = self.message_descriptor().full_name.as_str();
        if !same_text(name, "google.protobuf.Any") {
            return Err(AnyError::NotAny { full_name: name.to_owned() });
        }
        let type_url = self.read_text(1);
        if type_url.is_empty() {
            return Err(AnyError::MissingTypeUrl);
        }
        let index = match resolve_any_type(self.pool(), type_url) {
            Some(i) => i,
            None => return Err(AnyError::UnknownType { type_url: type_url.to_owned() }),
        };
        match DynamicMessage::decode(share_pool(self.pool()), index, self.read_bytes(2)) {
            Ok(m) => Ok(m),
            Err(source) => Err(AnyError::Decode { type_url: type_url.to_owned(), source }),
        }
    }

    /// Wraps this message in a `google.protobuf.Any` of its pool.
    ///
    /// The `type_url` is `type.googleapis.com/` and the full name of the
    /// message's type. Unknown fields are part of the wrapped bytes.
    pub fn pack_any(&self) -> (r: Result<DynamicMessage, AnyError>)
        ensures
            wraps(r, packed(self@)),
    {
        let index = match self.pool().message_index("google.protobuf.Any") {
            Some(i) => i,
            None => return Err(AnyError::AnyNotRegistered),
        };
        let type_url = join2(
            "type.googleapis.com/",
            self.message_descriptor().full_name.as_str(),
        );
        let bytes = match self.try_encode_to_vec() {
            Ok(bytes) => bytes,
            Err(_) => return Err(AnyError::MessageTooLarge),
        };
        let mut any = DynamicMessage::new(share_pool(self.pool()), index);
        any.insert_value(1, Value::String(type_url));
        any.insert_value(2, Value::Bytes(bytes));
        Ok(any)
    }
}

} // verus!
