# proto_reflect

Protobuf messages whose types are known only at run time. A `DynamicMessage`
holds the values of its fields by number, next to a descriptor of its type; the
descriptor drives decoding, encoding, reading, setting and clearing, and the
proto3 JSON form, the well-known types included.

The library is verified with Verus. What each function does is stated over a
mathematical model of messages: `MessageModel` and `ValueModel` in
`src/value.rs`.

## Layout

| Module | Content |
| --- | --- |
| `descriptor` | descriptors, and the pool that links them |
| `value`, `map` | values, messages, map entries in key order |
| `wire`, `scalar`, `unknown` | varints, tags, payloads, scalars, unknown fields |
| `encode` | the bytes of a message, and their number |
| `merge`, `decode` | what decoding does, and the decoder |
| `shape`, `adopt` | which values a field takes, and how foreign messages are taken in |
| `message` | reading, setting and clearing by descriptor |
| `any` | packing into and unpacking from `google.protobuf.Any` |
| `json`, `wkt`, `buffered`, `to_json`, `from_json` | the JSON form, out and in |
| `equal` | equality, and what debug output shows |
| `kept`, `merge_kept`, `read_kept` | what operations preserve: order, and oneofs with one member |
| `parts`, `spending` | bytes in parts, and limits: what was paid for covers what is held |
| `roundtrip`, `reread`, `reread_json`, `laws` | what ties the operations together |

The fields of a message are in the order of their numbers at all times. Its maps
are in the order of their keys after every public operation, given values whose
maps are; the laws say so of decoding, merging, setting, clearing, packing,
reading from JSON, and changing a value in place.

Pools and field descriptors are told apart by which they are, not by what they
hold: each has an `Identity` of its own, and none can be copied.

Floats and doubles are held as their bits. JSON is held as a tree; `app/` turns
it into text and back with serde, and bridges to generated messages.

## What is trusted

Calls into `buffa` stand behind small functions marked
`#[verifier::external_body]`, whose contracts are believed rather than proved:
varints, UTF-8 strings and unknown fields on the wire, the size limit, and in
JSON the texts of timestamps, durations, field masks, base64 and numbers in
strings. So do `Arc::clone`, the comparisons `Arc::ptr_eq` and `ptr::eq`, and the
quoting of strings in error texts. Each says in its comment what it calls and
what it claims.
