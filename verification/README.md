# buffa_reflect

Runtime reflection for protobuf messages, verified with Verus: a descriptor
pool built from `FileDescriptorSet`s, dynamic messages that read and write
any message type of the pool, the wire format, the JSON mapping and the
text format.

Layout:

- `src/` — the verified library. `pool.rs` and `pool_build.rs` build and
  query the descriptor pool; `message.rs`, `value.rs` and `access.rs` hold
  dynamic messages and their values; `wire.rs`, `codec.rs` and `decode.rs`
  the binary encoding; `json.rs` the JSON mapping over a JSON value model;
  `textlex.rs`, `textparse.rs`, `textfmt.rs` and `literal.rs` the text
  format; `reflect.rs` the `ReflectMessage` trait; `laws.rs`, `roundtrip.rs`,
  `json_roundtrip.rs`, `case.rs` and `escaping.rs` state the properties that
  relate several operations. Calls into `base64`, `chrono`
  and the standard library stand behind small trusted wrappers whose
  contracts are the only unproved statements.
- `tests/` — tests run against the compiled library.
- `app/` — what stays outside the proofs: JSON text through `serde_json`,
  floating-point text, decoding of encoded descriptor sets with
  `buffa-descriptor`, and code generation with `buffa-build`.
