//! Plain-data model of the `google.protobuf` descriptor messages that a
//! [`crate::pool::DescriptorPool`] is built from. Field names follow
//! `descriptor.proto`; `type` is spelled `field_type`.

use vstd::prelude::*;

verus! {

/// `FieldDescriptorProto.Label`.
#[derive(Clone, Copy, Debug, PartialEq, Eq, Structural)]
pub enum Label {
    LabelOptional,
    LabelRequired,
    LabelRepeated,
}

/// `FieldDescriptorProto.Type`.
#[derive(Clone, Copy, Debug, PartialEq, Eq, Structural)]
pub enum Type {
    TypeDouble,
    TypeFloat,
    TypeInt64,
    TypeUint64,
    TypeInt32,
    TypeFixed64,
    TypeFixed32,
    TypeBool,
    TypeString,
    TypeGroup,
    TypeMessage,
    TypeBytes,
    TypeUint32,
    TypeEnum,
    TypeSfixed32,
    TypeSfixed64,
    TypeSint32,
    TypeSint64,
}

/// A set of files, as produced by `protoc --descriptor_set_out`.
#[derive(Debug)]
pub struct FileDescriptorSet {
    pub file: Vec<FileDescriptorProto>,
}

/// One `.proto` file.
#[derive(Debug)]
pub struct FileDescriptorProto {
    pub name: Option<String>,
    pub package: Option<String>,
    pub message_type: Vec<DescriptorProto>,
    pub enum_type: Vec<EnumDescriptorProto>,
    pub service: Vec<ServiceDescriptorProto>,
    pub syntax: Option<String>,
}

/// `MessageOptions` (only the options that reflection reads).
#[derive(Clone, Copy, Debug)]
pub struct MessageOptions {
    pub map_entry: Option<bool>,
}

/// A message type.
#[derive(Debug)]
pub struct DescriptorProto {
    pub name: Option<String>,
    pub field: Vec<FieldDescriptorProto>,
    pub nested_type: Vec<DescriptorProto>,
    pub enum_type: Vec<EnumDescriptorProto>,
    pub oneof_decl: Vec<OneofDescriptorProto>,
    pub options: Option<MessageOptions>,
}

/// `FieldOptions` (only the options that reflection reads).
#[derive(Clone, Copy, Debug)]
pub struct FieldOptions {
    pub packed: Option<bool>,
}

/// A field of a message.
#[derive(Debug)]
pub struct FieldDescriptorProto {
    pub name: Option<String>,
    pub number: Option<i32>,
    pub label: Option<Label>,
    pub field_type: Option<Type>,
    pub type_path: Option<String>,
    pub default_value: Option<String>,
    pub oneof_index: Option<i32>,
    pub json_name: Option<String>,
    pub options: Option<FieldOptions>,
    pub proto3_optional: Option<bool>,
}

/// A oneof declaration.
#[derive(Debug)]
pub struct OneofDescriptorProto {
    pub name: Option<String>,
}

/// An enum type.
#[derive(Debug)]
pub struct EnumDescriptorProto {
    pub name: Option<String>,
    pub value: Vec<EnumValueDescriptorProto>,
}

/// One value of an enum.
#[derive(Debug)]
pub struct EnumValueDescriptorProto {
    pub name: Option<String>,
    pub number: Option<i32>,
}

/// A service.
#[derive(Debug)]
pub struct ServiceDescriptorProto {
    pub name: Option<String>,
    pub method: Vec<MethodDescriptorProto>,
}

/// One method of a service.
#[derive(Debug)]
pub struct MethodDescriptorProto {
    pub name: Option<String>,
    pub input_type: Option<String>,
    pub output_type: Option<String>,
    pub client_streaming: Option<bool>,
    pub server_streaming: Option<bool>,
}

} // verus!
