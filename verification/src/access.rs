//! Typed views of values, and field listings of messages.

use vstd::prelude::*;

use crate::handles::{FieldDescriptor, Kind};
use crate::message::{
    default_for, is_zero, is_zero_value, value_fits, value_valid, holds_message, DynamicMessage,
    MessageModel, Slot, SlotModel,
};
use crate::pool::{FieldEntry, KindRef};
use crate::value::{models_of, entry_models, KeyModel, MapKey, UnknownField, UnknownFieldSet, Value, ValueModel};

verus! {

/// The pool-relative kind a [`Kind`] stands for.
pub open spec fn kind_ref_of(k: Kind) -> KindRef {
    match k {
        Kind::Double => KindRef::Double,
        Kind::Float => KindRef::Float,
        Kind::Int32 => KindRef::Int32,
        Kind::Int64 => KindRef::Int64,
        Kind::Uint32 => KindRef::Uint32,
        Kind::Uint64 => KindRef::Uint64,
        Kind::Sint32 => KindRef::Sint32,
        Kind::Sint64 => KindRef::Sint64,
        Kind::Fixed32 => KindRef::Fixed32,
        Kind::Fixed64 => KindRef::Fixed64,
        Kind::Sfixed32 => KindRef::Sfixed32,
        Kind::Sfixed64 => KindRef::Sfixed64,
        Kind::Bool => KindRef::Bool,
        Kind::String => KindRef::String,
        Kind::Bytes => KindRef::Bytes,
        Kind::Message(d) => KindRef::Message(d.index()),
        Kind::Enum(e) => KindRef::Enum(e.index()),
    }
}

fn kind_ref(k: &Kind) -> (r: KindRef)
    ensures
        r == kind_ref_of(*k),
{
    match k {
        Kind::Double => KindRef::Double,
        Kind::Float => KindRef::Float,
        Kind::Int32 => KindRef::Int32,
        Kind::Int64 => KindRef::Int64,
        Kind::Uint32 => KindRef::Uint32,
        Kind::Uint64 => KindRef::Uint64,
        Kind::Sint32 => KindRef::Sint32,
        Kind::Sint64 => KindRef::Sint64,
        Kind::Fixed32 => KindRef::Fixed32,
        Kind::Fixed64 => KindRef::Fixed64,
        Kind::Sfixed32 => KindRef::Sfixed32,
        Kind::Sfixed64 => KindRef::Sfixed64,
        Kind::Bool => KindRef::Bool,
        Kind::String => KindRef::String,
        Kind::Bytes => KindRef::Bytes,
        Kind::Message(d) => KindRef::Message(d.idx()),
        Kind::Enum(e) => KindRef::Enum(e.idx()),
    }
}

impl Value {
    /// The boolean held, if this is a `bool`.
    pub fn as_bool(&self) -> (r: Option<bool>)
        ensures
            r == (match self.model() {
                ValueModel::Bool(b) => Some(b),
                _ => None,
            }),
    {
        match self {
            Value::Bool(b) => Some(*b),
            _ => None,
        }
    }

    /// The value held, if this is an `int32`-family value.
    pub fn as_i32(&self) -> (r: Option<i32>)
        ensures
            r == (match self.model() {
                ValueModel::I32(v) => Some(v),
                _ => None,
            }),
    {
        match self {
            Value::I32(v) => Some(*v),
            _ => None,
        }
    }

    /// The value held, if this is an `int64`-family value.
    pub fn as_i64(&self) -> (r: Option<i64>)
        ensures
            r == (match self.model() {
                ValueModel::I64(v) => Some(v),
                _ => None,
            }),
    {
        match self {
            Value::I64(v) => Some(*v),
            _ => None,
        }
    }

    /// The value held, if this is a `uint32`-family value.
    pub fn as_u32(&self) -> (r: Option<u32>)
        ensures
            r == (match self.model() {
                ValueModel::U32(v) => Some(v),
                _ => None,
            }),
    {
        match self {
            Value::U32(v) => Some(*v),
            _ => None,
        }
    }

    /// The value held, if this is a `uint64`-family value.
    pub fn as_u64(&self) -> (r: Option<u64>)
        ensures
            r == (match self.model() {
                ValueModel::U64(v) => Some(v),
                _ => None,
            }),
    {
        match self {
            Value::U64(v) => Some(*v),
            _ => None,
        }
    }

    /// The text held, if this is a `string`.
    pub fn as_str(&self) -> (r: Option<&str>)
        ensures
            match self.model() {
                ValueModel::Str(s) => r is Some && r->0@ == s,
                _ => r is None,
            },
    {
        match self {
            Value::String(s) => Some(s.as_str()),
            _ => None,
        }
    }

    /// The bytes held, if this is a `bytes` value.
    pub fn as_bytes(&self) -> (r: Option<&Vec<u8>>)
        ensures
            match self.model() {
                ValueModel::Bytes(b) => r is Some && r->0@ == b,
                _ => r is None,
            },
    {
        match self {
            Value::Bytes(b) => Some(b),
            _ => None,
        }
    }

    /// The number held, if this is an enum value.
    pub fn as_enum_number(&self) -> (r: Option<i32>)
        ensures
            r == (match self.model() {
                ValueModel::EnumNumber(n) => Some(n),
                _ => None,
            }),
    {
        match self {
            Value::EnumNumber(n) => Some(*n),
            _ => None,
        }
    }

    /// The message held, if this is a message value.
    pub fn as_message(&self) -> (r: Option<&DynamicMessage>)
        ensures
            match self.model() {
                ValueModel::Message(m) => r is Some && r->0.model() == m,
                _ => r is None,
            },
    {
        match self {
            Value::Message(m) => Some(m),
            _ => None,
        }
    }

    /// A handle on the message held, if this is a message value.
    pub fn as_message_mut(&mut self) -> (r: Option<&mut DynamicMessage>)
        ensures
            match *old(self) {
                Value::Message(m) => r is Some && *r->0 == m && *final(self) == Value::Message(
                    *final(r->0),
                ),
                _ => r is None && *final(self) == *old(self),
            },
    {
        match self {
            Value::Message(m) => Some(m),
            _ => None,
        }
    }

    /// A handle on the items held, if this is a list.
    pub fn as_list_mut(&mut self) -> (r: Option<&mut Vec<Value>>)
        ensures
            match *old(self) {
                Value::List(items) => r is Some && *r->0 == items && *final(self) == Value::List(
                    *final(r->0),
                ),
                _ => r is None && *final(self) == *old(self),
            },
    {
        match self {
            Value::List(items) => Some(items),
            _ => None,
        }
    }

    /// A handle on the entries held, if this is a map.
    pub fn as_map_mut(&mut self) -> (r: Option<&mut Vec<(MapKey, Value)>>)
        ensures
            match *old(self) {
                Value::Mapping(es) => r is Some && *r->0 == es && *final(self) == Value::Mapping(
                    *final(r->0),
                ),
                _ => r is None && *final(self) == *old(self),
            },
    {
        match self {
            Value::Mapping(es) => Some(es),
            _ => None,
        }
    }

    /// The items held, if this is a list.
    pub fn as_list(&self) -> (r: Option<&Vec<Value>>)
        ensures
            match self.model() {
                ValueModel::List(items) => r is Some && models_of(r->0@) == items,
                _ => r is None,
            },
    {
        match self {
            Value::List(items) => Some(items),
            _ => None,
        }
    }

    /// The entries held, if this is a map.
    pub fn as_map(&self) -> (r: Option<&Vec<(MapKey, Value)>>)
        ensures
            match self.model() {
                ValueModel::Mapping(es) => r is Some && entry_models(r->0@) == es,
                _ => r is None,
            },
    {
        match self {
            Value::Mapping(es) => Some(es),
            _ => None,
        }
    }

    /// Whether this is the zero value of kind `kind` (empty lists and maps
    /// count whatever the kind; messages when nothing is stored in them).
    pub fn is_default(&self, kind: &Kind) -> (r: bool)
        ensures
            r == is_zero(kind_ref_of(*kind), self.model()),
    {
        is_zero_value(kind_ref(kind), self)
    }

    /// Whether this value may be stored for `field`: of the field's kind,
    /// item by item for lists and entry by entry for maps; a message must
    /// be of the field's message type in the same pool.
    pub fn is_valid_for_field(&self, field: &FieldDescriptor) -> (r: bool)
        ensures
            r ==> value_fits(field.pool_view(), field.entry(), self.model()),
            (value_fits(field.pool_view(), field.entry(), self.model()) && !holds_message(self.model()))
                ==> r,
    {
        value_valid(field, self)
    }
}

impl UnknownFieldSet {
    /// Copies of the unknown fields in the set, in arrival order.
    pub fn iter(&self) -> (r: Vec<UnknownField>)
        ensures
            crate::value::unknown_models(r@) == self.model(),
    {
        self.entries()
    }
}

impl DynamicMessage {
    /// A copy of the message.
    pub fn transcode_to_dynamic(&self) -> (r: DynamicMessage)
        ensures
            r.model() == self.model(),
    {
        self.duplicate()
    }
}

} // verus!
