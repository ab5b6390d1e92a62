//! Dynamic protobuf messages: messages whose types are known only at run time.
//!
//! A `value::DynamicMessage` belongs to a type of a `descriptor::DescriptorPool`.
//! It is decoded (`decode`), encoded (`encode`), read and changed (`message`),
//! wrapped in `google.protobuf.Any` (`any`), and written as and read from JSON
//! (`to_json`, `from_json`). What holds across these is in `laws`, `roundtrip`,
//! `reread`, `reread_json`, `read_kept`, `parts`, `spending` and `equal`. What
//! each of these gives, said of its inputs, is in `wire_laws`, `schema_laws`,
//! `encode_laws`, `decode_laws`, `access_laws`, `json_out_laws`, `json_in_laws`,
//! `mask_laws` and `naming_laws`.
pub mod access_laws;
pub mod adopt;
pub mod any;
pub mod buffered;
pub mod decode;
pub mod decode_laws;
pub mod descriptor;
pub mod encode;
pub mod encode_laws;
pub mod equal;
pub mod from_json;
pub mod json;
pub mod json_in_laws;
pub mod json_out_laws;
pub mod kept;
pub mod laws;
pub mod map;
pub mod mask_laws;
pub mod merge;
pub mod merge_kept;
pub mod message;
pub mod naming_laws;
pub mod parts;
pub mod read_kept;
pub mod reread;
pub mod reread_json;
pub mod roundtrip;
pub mod scalar;
pub mod schema_laws;
pub mod shape;
pub mod spending;
pub mod text;
pub mod to_json;
pub mod unknown;
pub mod value;
pub mod wire;
pub mod wire_laws;
pub mod wkt;
