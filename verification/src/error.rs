//! Errors raised while decoding wire bytes or building a descriptor pool.

use vstd::prelude::*;

verus! {

/// Ways decoding protobuf wire bytes can fail.
#[derive(Clone, Copy, Debug, PartialEq, Eq, Structural)]
pub enum DecodeError {
    /// The input ended in the middle of a value.
    UnexpectedEof,
    /// A varint ran past ten bytes or overflowed 64 bits.
    VarintTooLong,
    /// A tag carried a wire type that is not defined, or that does not fit
    /// the field it addresses.
    InvalidWireType(u32),
    /// A tag carried field number 0 or a number above `2^29 - 1`.
    InvalidFieldNumber,
    /// A length prefix did not fit in memory.
    MessageTooLarge,
    /// Sub-messages or groups were nested deeper than the recursion budget.
    RecursionLimitExceeded,
    /// A `string` field held bytes that are not UTF-8.
    InvalidUtf8,
    /// An end-group tag closed a group with a different field number.
    InvalidEndGroup(u32),
}

/// All ways descriptor pool construction can fail.
#[derive(Debug)]
pub enum DescriptorError {
    /// The bytes handed in are not a valid encoded `FileDescriptorSet`;
    /// carries the decoder's message.
    Decode(String),
    /// A `FileDescriptorProto.name` field was missing.
    MissingFileName,
    /// A nested type (message / enum / field / oneof) had no `name` set;
    /// `location` is the containing file scope or message name.
    MissingName { location: String },
    /// A field referenced a type that no descriptor in the pool defines.
    UnresolvedType { field: String, referenced: String },
    /// Two descriptors share the same fully-qualified name.
    DuplicateType(String),
    /// Two files carry the same name.
    DuplicateFile(String),
    /// proto3 forbids `required`.
    Proto3RequiredField { field: String },
    /// A field number outside `1..=max` or inside `19000..=19999`.
    InvalidFieldNumber { message: String, number: i32, max: u32 },
    /// A field has neither a type nor a type reference.
    MissingFieldType { field: String },
    /// A message / group / enum field has no type reference.
    MissingTypeName { field: String, kind: String },
    /// A `oneof_index` names a oneof the message does not declare.
    InvalidOneofIndex { field: String, index: i32, count: usize },
    /// A proto3 enum lacks the value-0 variant.
    Proto3EnumMissingZero(String),
    /// A `[default = …]` literal does not parse against the field's kind.
    InvalidDefaultValue { field: String, value: String, message: String },
    /// Any other descriptor-validation failure.
    Validation(String),
}

} // verus!
