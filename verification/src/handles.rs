//! Descriptor handles: cheap views into a [`DescriptorPool`] that name one
//! file, message, field, oneof, enum, enum value, service or method by
//! index. Each handle keeps its own reference to the pool, so it stays
//! valid however the pool it came from is later extended.

use vstd::prelude::*;

use crate::descriptor::{
    DescriptorProto, EnumDescriptorProto, FieldDescriptorProto, FileDescriptorProto,
    MethodDescriptorProto, OneofDescriptorProto, ServiceDescriptorProto,
};
use crate::pool::{
    Cardinality, DefaultValue, DescriptorPool, EnumEntry, EnumValueEntry, FieldEntry, FileEntry,
    KindRef, MessageEntry, MethodEntry, OneofEntry, PoolInner, ServiceEntry, table_get,
};
use crate::pool_build::{
    resolve_enum_proto, resolve_message_proto, spec_enum_proto, spec_message_proto,
};

verus! {

/// The first position in `values` whose `number` is `n`.
pub open spec fn first_with_number(values: Seq<EnumValueEntry>, n: i32) -> Option<int>
    decreases values.len(),
{
    if values.len() == 0 {
        None
    } else if values[0].number == n {
        Some(0)
    } else {
        match first_with_number(values.drop_first(), n) {
            Some(i) => Some(i + 1),
            None => None,
        }
    }
}

/// A message type of a pool.
pub struct MessageDescriptor {
    pub(crate) pool: DescriptorPool,
    pub(crate) index: u32,
}

impl MessageDescriptor {
    #[verifier::type_invariant]
    pub(crate) closed spec fn inv(self) -> bool {
        self.index < self.pool.view_inner().messages@.len()
    }

    /// The pool this handle reads.
    pub closed spec fn pool_view(self) -> PoolInner {
        self.pool.view_inner()
    }

    /// The message's index in the pool.
    pub closed spec fn index(self) -> u32 {
        self.index
    }

    /// The pool entry this handle names.
    pub open spec fn entry(self) -> MessageEntry {
        self.pool_view().messages@[self.index() as int]
    }

    pub(crate) fn new(pool: DescriptorPool, index: u32) -> (r: MessageDescriptor)
        requires
            index < pool.view_inner().messages@.len(),
        ensures
            r.pool_view() == pool.view_inner(),
            r.index() == index,
    {
        MessageDescriptor { pool, index }
    }

    pub(crate) fn pool_ref(&self) -> (r: &DescriptorPool)
        ensures
            r.view_inner() == self.pool_view(),
    {
        &self.pool
    }

    pub(crate) fn idx(&self) -> (r: u32)
        ensures
            r == self.index(),
            r < self.pool_view().messages@.len(),
    {
        proof {
            use_type_invariant(self);
        }
        self.index
    }

    /// A second handle to the same message.
    pub fn clone_handle(&self) -> (r: MessageDescriptor)
        ensures
            r.pool_view() == self.pool_view(),
            r.index() == self.index(),
    {
        proof {
            use_type_invariant(self);
        }
        MessageDescriptor { pool: self.pool.clone_handle(), index: self.index }
    }

    /// Whether both handles name the same message of equal pools.
    pub open spec fn same(self, other: MessageDescriptor) -> bool {
        self.pool_view() == other.pool_view() && self.index() == other.index()
    }

    /// Fully-qualified name, without a leading dot.
    pub fn full_name(&self) -> (r: &str)
        ensures
            r@ == self.entry().full_name@,
    {
        proof {
            use_type_invariant(self);
        }
        self.pool.inner_ref().messages[self.index as usize].full_name.as_str()
    }

    /// The unqualified name.
    pub fn name(&self) -> (r: &str)
        ensures
            r@ == self.entry().name@,
    {
        proof {
            use_type_invariant(self);
        }
        self.pool.inner_ref().messages[self.index as usize].name.as_str()
    }

    /// The file declaring this message.
    pub fn parent_file(&self) -> (r: FileDescriptor)
        ensures
            r.pool_view() == self.pool_view(),
            r.index() == self.entry().file,
    {
        let _p = self.pool.inner_ref();
        proof {
            use_type_invariant(self);
        }
        let f = self.pool.inner_ref().messages[self.index as usize].file;
        proof {
            assert(self.pool_view().messages@[self.index as int].wf_in(
                self.pool_view().files@.len(),
                self.pool_view().messages@.len(),
                self.pool_view().enums@.len(),
            ));
        }
        FileDescriptor::new(self.pool.clone_handle(), f)
    }

    /// The enclosing message, for a nested message.
    pub fn parent_message(&self) -> (r: Option<MessageDescriptor>)
        ensures
            r is Some <==> self.entry().parent is Some,
            r is Some ==> r->0.pool_view() == self.pool_view() && Some(r->0.index())
                == self.entry().parent,
    {
        let _p = self.pool.inner_ref();
        proof {
            use_type_invariant(self);
            assert(self.pool_view().messages@[self.index as int].wf_in(
                self.pool_view().files@.len(),
                self.pool_view().messages@.len(),
                self.pool_view().enums@.len(),
            ));
        }
        match self.pool.inner_ref().messages[self.index as usize].parent {
            Some(p) => Some(MessageDescriptor::new(self.pool.clone_handle(), p)),
            None => None,
        }
    }

    /// The fields, in declaration order.
    pub fn fields(&self) -> (r: Vec<FieldDescriptor>)
        ensures
            r@.len() == self.entry().fields@.len(),
            forall|i: int|
                0 <= i < r@.len() ==> (#[trigger] r@[i]).pool_view() == self.pool_view()
                    && r@[i].message() == self.index() && r@[i].index() == i,
    {
        let _p = self.pool.inner_ref();
        proof {
            use_type_invariant(self);
            assert(self.pool_view().messages@[self.index as int].wf_in(
                self.pool_view().files@.len(),
                self.pool_view().messages@.len(),
                self.pool_view().enums@.len(),
            ));
        }
        let n = self.pool.inner_ref().messages[self.index as usize].fields.len();
        let mut out: Vec<FieldDescriptor> = Vec::new();
        let mut i: usize = 0;
        while i < n
            invariant
                i <= n == self.entry().fields@.len(),
                n <= u32::MAX,
                self.index() < self.pool_view().messages@.len(),
                out@.len() == i,
                forall|k: int|
                    0 <= k < i ==> (#[trigger] out@[k]).pool_view() == self.pool_view()
                        && out@[k].message() == self.index() && out@[k].index() == k,
            decreases n - i,
        {
            out.push(FieldDescriptor::new(self.pool.clone_handle(), self.index, i as u32));
            i = i + 1;
        }
        out
    }

    /// The oneofs, in declaration order (synthetic ones included).
    pub fn oneofs(&self) -> (r: Vec<OneofDescriptor>)
        ensures
            r@.len() == self.entry().oneofs@.len(),
            forall|i: int|
                0 <= i < r@.len() ==> (#[trigger] r@[i]).pool_view() == self.pool_view()
                    && r@[i].message() == self.index() && r@[i].index() == i,
    {
        let _p = self.pool.inner_ref();
        proof {
            use_type_invariant(self);
            assert(self.pool_view().messages@[self.index as int].wf_in(
                self.pool_view().files@.len(),
                self.pool_view().messages@.len(),
                self.pool_view().enums@.len(),
            ));
        }
        let n = self.pool.inner_ref().messages[self.index as usize].oneofs.len();
        let mut out: Vec<OneofDescriptor> = Vec::new();
        let mut i: usize = 0;
        while i < n
            invariant
                i <= n == self.entry().oneofs@.len(),
                n <= u32::MAX,
                self.index() < self.pool_view().messages@.len(),
                out@.len() == i,
                forall|k: int|
                    0 <= k < i ==> (#[trigger] out@[k]).pool_view() == self.pool_view()
                        && out@[k].message() == self.index() && out@[k].index() == k,
            decreases n - i,
        {
            out.push(OneofDescriptor::new(self.pool.clone_handle(), self.index, i as u32));
            i = i + 1;
        }
        out
    }

    /// The field with proto name `name`.
    pub fn get_field_by_name(&self, name: &str) -> (r: Option<FieldDescriptor>)
        ensures
            r is Some <==> exists|i: int|
                0 <= i < self.entry().fields@.len() && #[trigger] self.entry().fields@[i].name@
                    == name@,
            r is Some ==> r->0.pool_view() == self.pool_view() && r->0.message() == self.index()
                && r->0.entry().name@ == name@ && forall|k: int|
                0 <= k < r->0.index() ==> #[trigger] self.entry().fields@[k].name@ != name@,
    {
        let _p = self.pool.inner_ref();
        proof {
            use_type_invariant(self);
            assert(self.pool_view().messages@[self.index as int].wf_in(
                self.pool_view().files@.len(),
                self.pool_view().messages@.len(),
                self.pool_view().enums@.len(),
            ));
        }
        let fields = &self.pool.inner_ref().messages[self.index as usize].fields;
        let key = name.to_owned();
        let mut i: usize = 0;
        while i < fields.len()
            invariant
                i <= fields@.len(),
                *fields == self.entry().fields,
                fields@.len() <= u32::MAX,
                key@ == name@,
                self.index() < self.pool_view().messages@.len(),
                forall|k: int| 0 <= k < i ==> (#[trigger] fields@[k]).name@ != name@,
            decreases fields@.len() - i,
        {
            if fields[i].name == key {
                return Some(FieldDescriptor::new(self.pool.clone_handle(), self.index, i as u32));
            }
            i = i + 1;
        }
        None
    }

    /// The first field whose JSON name is `name`.
    pub fn get_field_by_json_name(&self, name: &str) -> (r: Option<FieldDescriptor>)
        ensures
            r is Some <==> exists|i: int|
                0 <= i < self.entry().fields@.len()
                    && #[trigger] self.entry().fields@[i].json_name@ == name@,
            r is Some ==> r->0.pool_view() == self.pool_view() && r->0.message() == self.index()
                && r->0.entry().json_name@ == name@ && forall|k: int|
                0 <= k < r->0.index() ==> #[trigger] self.entry().fields@[k].json_name@ != name@,
    {
        let _p = self.pool.inner_ref();
        proof {
            use_type_invariant(self);
            assert(self.pool_view().messages@[self.index as int].wf_in(
                self.pool_view().files@.len(),
                self.pool_view().messages@.len(),
                self.pool_view().enums@.len(),
            ));
        }
        let fields = &self.pool.inner_ref().messages[self.index as usize].fields;
        let key = name.to_owned();
        let mut i: usize = 0;
        while i < fields.len()
            invariant
                i <= fields@.len(),
                *fields == self.entry().fields,
                fields@.len() <= u32::MAX,
                key@ == name@,
                self.index() < self.pool_view().messages@.len(),
                forall|k: int| 0 <= k < i ==> (#[trigger] fields@[k]).json_name@ != name@,
            decreases fields@.len() - i,
        {
            if fields[i].json_name == key {
                return Some(FieldDescriptor::new(self.pool.clone_handle(), self.index, i as u32));
            }
            i = i + 1;
        }
        None
    }

    /// The field numbered `number`.
    pub fn get_field_by_number(&self, number: u32) -> (r: Option<FieldDescriptor>)
        ensures
            r is Some <==> exists|i: int|
                0 <= i < self.entry().fields@.len() && #[trigger] self.entry().fields@[i].number
                    == number,
            r is Some ==> r->0.pool_view() == self.pool_view() && r->0.message() == self.index()
                && r->0.entry().number == number && forall|k: int|
                0 <= k < r->0.index() ==> #[trigger] self.entry().fields@[k].number != number,
    {
        let _p = self.pool.inner_ref();
        proof {
            use_type_invariant(self);
            assert(self.pool_view().messages@[self.index as int].wf_in(
                self.pool_view().files@.len(),
                self.pool_view().messages@.len(),
                self.pool_view().enums@.len(),
            ));
        }
        let fields = &self.pool.inner_ref().messages[self.index as usize].fields;
        let mut i: usize = 0;
        while i < fields.len()
            invariant
                i <= fields@.len(),
                *fields == self.entry().fields,
                fields@.len() <= u32::MAX,
                self.index() < self.pool_view().messages@.len(),
                forall|k: int| 0 <= k < i ==> (#[trigger] fields@[k]).number != number,
            decreases fields@.len() - i,
        {
            if fields[i].number == number {
                return Some(FieldDescriptor::new(self.pool.clone_handle(), self.index, i as u32));
            }
            i = i + 1;
        }
        None
    }

    /// True iff this message was synthesized for a `map<K, V>` field.
    pub fn is_map_entry(&self) -> (r: bool)
        ensures
            r == self.entry().is_map_entry,
    {
        proof {
            use_type_invariant(self);
        }
        self.pool.inner_ref().messages[self.index as usize].is_map_entry
    }

    /// The message's descriptor inside its file, found by its recorded
    /// index path.
    pub fn descriptor_proto(&self) -> (r: Option<&DescriptorProto>)
        ensures
            r is Some <==> spec_message_proto(
                &self.pool_view().files@[self.entry().file as int].proto,
                self.entry().proto_path@,
            ) is Some,
            r is Some ==> *r->0 == spec_message_proto(
                &self.pool_view().files@[self.entry().file as int].proto,
                self.entry().proto_path@,
            )->0,
    {
        let _p = self.pool.inner_ref();
        proof {
            use_type_invariant(self);
            assert(self.pool_view().messages@[self.index as int].wf_in(
                self.pool_view().files@.len(),
                self.pool_view().messages@.len(),
                self.pool_view().enums@.len(),
            ));
        }
        let entry = &self.pool.inner_ref().messages[self.index as usize];
        resolve_message_proto(&self.pool.inner_ref().files[entry.file as usize].proto, &entry.proto_path)
    }
}

/// What a field holds: a scalar type, or a message or enum type of the pool.
pub enum Kind {
    Double,
    Float,
    Int32,
    Int64,
    Uint32,
    Uint64,
    Sint32,
    Sint64,
    Fixed32,
    Fixed64,
    Sfixed32,
    Sfixed64,
    Bool,
    String,
    Bytes,
    Message(MessageDescriptor),
    Enum(EnumDescriptor),
}

/// A field of a message type.
pub struct FieldDescriptor {
    pub(crate) pool: DescriptorPool,
    pub(crate) message: u32,
    pub(crate) index: u32,
}

impl FieldDescriptor {
    #[verifier::type_invariant]
    pub(crate) closed spec fn inv(self) -> bool {
        &&& self.message < self.pool.view_inner().messages@.len()
        &&& self.index < self.pool.view_inner().messages@[self.message as int].fields@.len()
    }

    pub closed spec fn pool_view(self) -> PoolInner {
        self.pool.view_inner()
    }

    /// Index of the owning message.
    pub closed spec fn message(self) -> u32 {
        self.message
    }

    /// Position among the owning message's fields.
    pub closed spec fn index(self) -> u32 {
        self.index
    }

    pub open spec fn entry(self) -> FieldEntry {
        self.pool_view().messages@[self.message() as int].fields@[self.index() as int]
    }

    pub(crate) fn new(pool: DescriptorPool, message: u32, index: u32) -> (r: FieldDescriptor)
        requires
            message < pool.view_inner().messages@.len(),
            index < pool.view_inner().messages@[message as int].fields@.len(),
        ensures
            r.pool_view() == pool.view_inner(),
            r.message() == message,
            r.index() == index,
    {
        FieldDescriptor { pool, message, index }
    }

    pub(crate) fn pool_ref(&self) -> (r: &DescriptorPool)
        ensures
            r.view_inner() == self.pool_view(),
    {
        &self.pool
    }

    /// A second handle to the same field.
    pub fn clone_handle(&self) -> (r: FieldDescriptor)
        ensures
            r.pool_view() == self.pool_view(),
            r.message() == self.message(),
            r.index() == self.index(),
    {
        proof {
            use_type_invariant(self);
        }
        FieldDescriptor { pool: self.pool.clone_handle(), message: self.message, index: self.index }
    }

    pub(crate) fn entry_ref(&self) -> (r: &FieldEntry)
        ensures
            *r == self.entry(),
    {
        proof {
            use_type_invariant(self);
        }
        &self.pool.inner_ref().messages[self.message as usize].fields[self.index as usize]
    }

    pub fn name(&self) -> (r: &str)
        ensures
            r@ == self.entry().name@,
    {
        self.entry_ref().name.as_str()
    }

    pub fn full_name(&self) -> (r: &str)
        ensures
            r@ == self.entry().full_name@,
    {
        self.entry_ref().full_name.as_str()
    }

    pub fn json_name(&self) -> (r: &str)
        ensures
            r@ == self.entry().json_name@,
    {
        self.entry_ref().json_name.as_str()
    }

    pub fn number(&self) -> (r: u32)
        ensures
            r == self.entry().number,
    {
        self.entry_ref().number
    }

    /// The pool-relative kind of the field.
    pub fn kind_ref(&self) -> (r: KindRef)
        ensures
            r == self.entry().kind,
            crate::pool::kind_ok(r, self.pool_view().messages@.len(), self.pool_view().enums@.len()),
    {
        let _p = self.pool.inner_ref();
        proof {
            use_type_invariant(self);
            assert(self.pool_view().messages@[self.message as int].wf_in(
                self.pool_view().files@.len(),
                self.pool_view().messages@.len(),
                self.pool_view().enums@.len(),
            ));
        }
        self.entry_ref().kind
    }

    /// The field's type, with message and enum types as handles.
    pub fn kind(&self) -> (r: Kind)
        ensures
            match (r, self.entry().kind) {
                (Kind::Double, KindRef::Double) => true,
                (Kind::Float, KindRef::Float) => true,
                (Kind::Int32, KindRef::Int32) => true,
                (Kind::Int64, KindRef::Int64) => true,
                (Kind::Uint32, KindRef::Uint32) => true,
                (Kind::Uint64, KindRef::Uint64) => true,
                (Kind::Sint32, KindRef::Sint32) => true,
                (Kind::Sint64, KindRef::Sint64) => true,
                (Kind::Fixed32, KindRef::Fixed32) => true,
                (Kind::Fixed64, KindRef::Fixed64) => true,
                (Kind::Sfixed32, KindRef::Sfixed32) => true,
                (Kind::Sfixed64, KindRef::Sfixed64) => true,
                (Kind::Bool, KindRef::Bool) => true,
                (Kind::String, KindRef::String) => true,
                (Kind::Bytes, KindRef::Bytes) => true,
                (Kind::Message(m), KindRef::Message(i)) => m.index() == i && m.pool_view()
                    == self.pool_view(),
                (Kind::Enum(e), KindRef::Enum(i)) => e.index() == i && e.pool_view()
                    == self.pool_view(),
                _ => false,
            },
    {
        let k = self.kind_ref();
        match k {
            KindRef::Double => Kind::Double,
            KindRef::Float => Kind::Float,
            KindRef::Int32 => Kind::Int32,
            KindRef::Int64 => Kind::Int64,
            KindRef::Uint32 => Kind::Uint32,
            KindRef::Uint64 => Kind::Uint64,
            KindRef::Sint32 => Kind::Sint32,
            KindRef::Sint64 => Kind::Sint64,
            KindRef::Fixed32 => Kind::Fixed32,
            KindRef::Fixed64 => Kind::Fixed64,
            KindRef::Sfixed32 => Kind::Sfixed32,
            KindRef::Sfixed64 => Kind::Sfixed64,
            KindRef::Bool => Kind::Bool,
            KindRef::String => Kind::String,
            KindRef::Bytes => Kind::Bytes,
            KindRef::Message(i) => Kind::Message(MessageDescriptor::new(self.pool.clone_handle(), i)),
            KindRef::Enum(i) => Kind::Enum(EnumDescriptor::new(self.pool.clone_handle(), i)),
        }
    }

    pub fn cardinality(&self) -> (r: Cardinality)
        ensures
            r == self.entry().cardinality,
    {
        self.entry_ref().cardinality
    }

    /// Whether presence is tracked (`has`/`clear` distinguish unset).
    pub fn supports_presence(&self) -> (r: bool)
        ensures
            r == self.entry().supports_presence,
    {
        self.entry_ref().supports_presence
    }

    pub fn is_packed(&self) -> (r: bool)
        ensures
            r == self.entry().is_packed,
    {
        self.entry_ref().is_packed
    }

    /// The parsed `[default = …]` of the field, if it declares one.
    pub fn default_value(&self) -> (r: &Option<DefaultValue>)
        ensures
            *r == self.entry().parsed_default,
    {
        &self.entry_ref().parsed_default
    }

    /// True iff the field is a `map<K, V>`: its type is a map-entry message.
    pub fn is_map(&self) -> (r: bool)
        ensures
            r == (self.entry().kind matches KindRef::Message(i) && self.pool_view().messages@[
                i as int].is_map_entry),
    {
        match self.kind_ref() {
            KindRef::Message(i) => self.pool.inner_ref().messages[i as usize].is_map_entry,
            _ => false,
        }
    }

    /// The oneof the field belongs to.
    pub fn containing_oneof(&self) -> (r: Option<OneofDescriptor>)
        ensures
            r is Some <==> self.entry().oneof_index is Some,
            r is Some ==> r->0.pool_view() == self.pool_view() && r->0.message() == self.message()
                && Some(r->0.index()) == self.entry().oneof_index,
    {
        let _p = self.pool.inner_ref();
        proof {
            use_type_invariant(self);
            assert(self.pool_view().messages@[self.message as int].wf_in(
                self.pool_view().files@.len(),
                self.pool_view().messages@.len(),
                self.pool_view().enums@.len(),
            ));
        }
        proof {
            assert(self.pool_view().messages@[self.message as int].fields@[self.index as int].kind
                == self.entry().kind);
        }
        match self.entry_ref().oneof_index {
            Some(o) => Some(OneofDescriptor::new(self.pool.clone_handle(), self.message, o)),
            None => None,
        }
    }

    /// The message declaring the field.
    pub fn parent_message(&self) -> (r: MessageDescriptor)
        ensures
            r.pool_view() == self.pool_view(),
            r.index() == self.message(),
    {
        proof {
            use_type_invariant(self);
        }
        MessageDescriptor::new(self.pool.clone_handle(), self.message)
    }

    /// The field's descriptor inside its message's descriptor.
    pub fn descriptor_proto(&self) -> (r: Option<&FieldDescriptorProto>)
        ensures
            r is Some <==> ({
                let m = spec_message_proto(
                    &self.pool_view().files@[self.pool_view().messages@[self.message() as int].file as int].proto,
                    self.pool_view().messages@[self.message() as int].proto_path@,
                );
                m is Some && self.entry().proto_field_index < m->0.field@.len()
            }),
            r is Some ==> ({
                let m = spec_message_proto(
                    &self.pool_view().files@[self.pool_view().messages@[self.message() as int].file as int].proto,
                    self.pool_view().messages@[self.message() as int].proto_path@,
                );
                &&& m is Some
                &&& self.entry().proto_field_index < m->0.field@.len()
                &&& *r->0 == m->0.field@[self.entry().proto_field_index as int]
            }),
    {
        let _p = self.pool.inner_ref();
        proof {
            use_type_invariant(self);
            assert(self.pool_view().messages@[self.message as int].wf_in(
                self.pool_view().files@.len(),
                self.pool_view().messages@.len(),
                self.pool_view().enums@.len(),
            ));
        }
        let pi = self.entry_ref().proto_field_index;
        let entry = &self.pool.inner_ref().messages[self.message as usize];
        match resolve_message_proto(&self.pool.inner_ref().files[entry.file as usize].proto, &entry.proto_path) {
            Some(m) => {
                if (pi as usize) < m.field.len() {
                    Some(&m.field[pi as usize])
                } else {
                    None
                }
            },
            None => None,
        }
    }
}

/// A oneof of a message type.
pub struct OneofDescriptor {
    pub(crate) pool: DescriptorPool,
    pub(crate) message: u32,
    pub(crate) index: u32,
}

impl OneofDescriptor {
    #[verifier::type_invariant]
    pub(crate) closed spec fn inv(self) -> bool {
        &&& self.message < self.pool.view_inner().messages@.len()
        &&& self.index < self.pool.view_inner().messages@[self.message as int].oneofs@.len()
    }

    pub closed spec fn pool_view(self) -> PoolInner {
        self.pool.view_inner()
    }

    pub closed spec fn message(self) -> u32 {
        self.message
    }

    pub closed spec fn index(self) -> u32 {
        self.index
    }

    pub open spec fn entry(self) -> OneofEntry {
        self.pool_view().messages@[self.message() as int].oneofs@[self.index() as int]
    }

    pub(crate) fn new(pool: DescriptorPool, message: u32, index: u32) -> (r: OneofDescriptor)
        requires
            message < pool.view_inner().messages@.len(),
            index < pool.view_inner().messages@[message as int].oneofs@.len(),
        ensures
            r.pool_view() == pool.view_inner(),
            r.message() == message,
            r.index() == index,
    {
        OneofDescriptor { pool, message, index }
    }

    pub(crate) fn entry_ref(&self) -> (r: &OneofEntry)
        ensures
            *r == self.entry(),
    {
        proof {
            use_type_invariant(self);
        }
        &self.pool.inner_ref().messages[self.message as usize].oneofs[self.index as usize]
    }

    pub fn name(&self) -> (r: &str)
        ensures
            r@ == self.entry().name@,
    {
        self.entry_ref().name.as_str()
    }

    pub fn full_name(&self) -> (r: &str)
        ensures
            r@ == self.entry().full_name@,
    {
        self.entry_ref().full_name.as_str()
    }

    /// True for the oneof protoc synthesizes around a proto3 `optional`
    /// field.
    pub fn is_synthetic(&self) -> (r: bool)
        ensures
            r == self.entry().is_synthetic,
    {
        self.entry_ref().is_synthetic
    }

    pub fn parent_message(&self) -> (r: MessageDescriptor)
        ensures
            r.pool_view() == self.pool_view(),
            r.index() == self.message(),
    {
        proof {
            use_type_invariant(self);
        }
        MessageDescriptor::new(self.pool.clone_handle(), self.message)
    }

    /// The member fields, in declaration order.
    pub fn fields(&self) -> (r: Vec<FieldDescriptor>)
        ensures
            r@.len() == self.entry().field_indices@.len(),
            forall|i: int|
                0 <= i < r@.len() ==> (#[trigger] r@[i]).pool_view() == self.pool_view()
                    && r@[i].message() == self.message() && r@[i].index()
                    == self.entry().field_indices@[i],
    {
        let _p = self.pool.inner_ref();
        proof {
            use_type_invariant(self);
            assert(self.pool_view().messages@[self.message as int].wf_in(
                self.pool_view().files@.len(),
                self.pool_view().messages@.len(),
                self.pool_view().enums@.len(),
            ));
        }
        let members = &self.pool.inner_ref().messages[self.message as usize].oneofs[self.index as usize].field_indices;
        let mut out: Vec<FieldDescriptor> = Vec::new();
        let mut i: usize = 0;
        while i < members.len()
            invariant
                i <= members@.len(),
                *members == self.entry().field_indices,
                self.message() < self.pool_view().messages@.len(),
                forall|k: int|
                    0 <= k < members@.len() ==> #[trigger] members@[k]
                        < self.pool_view().messages@[self.message() as int].fields@.len(),
                out@.len() == i,
                forall|k: int|
                    0 <= k < i ==> (#[trigger] out@[k]).pool_view() == self.pool_view()
                        && out@[k].message() == self.message() && out@[k].index() == members@[k],
            decreases members@.len() - i,
        {
            out.push(FieldDescriptor::new(self.pool.clone_handle(), self.message, members[i]));
            i = i + 1;
        }
        out
    }

    /// The oneof's declaration inside its message's descriptor.
    pub fn descriptor_proto(&self) -> (r: Option<&OneofDescriptorProto>)
        ensures
            r is Some <==> ({
                let m = spec_message_proto(
                    &self.pool_view().files@[self.pool_view().messages@[self.message() as int].file as int].proto,
                    self.pool_view().messages@[self.message() as int].proto_path@,
                );
                m is Some && self.entry().proto_index < m->0.oneof_decl@.len()
            }),
            r is Some ==> ({
                let m = spec_message_proto(
                    &self.pool_view().files@[self.pool_view().messages@[self.message() as int].file as int].proto,
                    self.pool_view().messages@[self.message() as int].proto_path@,
                );
                &&& m is Some
                &&& self.entry().proto_index < m->0.oneof_decl@.len()
                &&& *r->0 == m->0.oneof_decl@[self.entry().proto_index as int]
            }),
    {
        let _p = self.pool.inner_ref();
        proof {
            use_type_invariant(self);
            assert(self.pool_view().messages@[self.message as int].wf_in(
                self.pool_view().files@.len(),
                self.pool_view().messages@.len(),
                self.pool_view().enums@.len(),
            ));
        }
        let pi = self.entry_ref().proto_index;
        let entry = &self.pool.inner_ref().messages[self.message as usize];
        match resolve_message_proto(&self.pool.inner_ref().files[entry.file as usize].proto, &entry.proto_path) {
            Some(m) => {
                if (pi as usize) < m.oneof_decl.len() {
                    Some(&m.oneof_decl[pi as usize])
                } else {
                    None
                }
            },
            None => None,
        }
    }
}

/// An enum type of a pool.
pub struct EnumDescriptor {
    pub(crate) pool: DescriptorPool,
    pub(crate) index: u32,
}

impl EnumDescriptor {
    #[verifier::type_invariant]
    pub(crate) closed spec fn inv(self) -> bool {
        self.index < self.pool.view_inner().enums@.len()
    }

    pub closed spec fn pool_view(self) -> PoolInner {
        self.pool.view_inner()
    }

    pub closed spec fn index(self) -> u32 {
        self.index
    }

    pub open spec fn entry(self) -> EnumEntry {
        self.pool_view().enums@[self.index() as int]
    }

    pub(crate) fn new(pool: DescriptorPool, index: u32) -> (r: EnumDescriptor)
        requires
            index < pool.view_inner().enums@.len(),
        ensures
            r.pool_view() == pool.view_inner(),
            r.index() == index,
    {
        EnumDescriptor { pool, index }
    }

    pub(crate) fn idx(&self) -> (r: u32)
        ensures
            r == self.index(),
    {
        self.index
    }

    pub fn clone_handle(&self) -> (r: EnumDescriptor)
        ensures
            r.pool_view() == self.pool_view(),
            r.index() == self.index(),
    {
        proof {
            use_type_invariant(self);
        }
        EnumDescriptor { pool: self.pool.clone_handle(), index: self.index }
    }

    pub(crate) fn entry_ref(&self) -> (r: &EnumEntry)
        ensures
            *r == self.entry(),
    {
        proof {
            use_type_invariant(self);
        }
        &self.pool.inner_ref().enums[self.index as usize]
    }


    /// The enum's descriptor inside its file, found by its recorded index
    /// path.
    pub fn descriptor_proto(&self) -> (r: Option<&EnumDescriptorProto>)
        ensures
            r is Some <==> spec_enum_proto(
                &self.pool_view().files@[self.entry().file as int].proto,
                self.entry().proto_path@,
            ) is Some,
            r is Some ==> *r->0 == spec_enum_proto(
                &self.pool_view().files@[self.entry().file as int].proto,
                self.entry().proto_path@,
            )->0,
    {
        let _p = self.pool.inner_ref();
        proof {
            use_type_invariant(self);
            assert(self.pool_view().enums@[self.index as int].wf_in(
                self.pool_view().files@.len(),
                self.pool_view().messages@.len(),
            ));
        }
        let entry = &self.pool.inner_ref().enums[self.index as usize];
        resolve_enum_proto(&self.pool.inner_ref().files[entry.file as usize].proto, &entry.proto_path)
    }

    pub fn full_name(&self) -> (r: &str)
        ensures
            r@ == self.entry().full_name@,
    {
        self.entry_ref().full_name.as_str()
    }

    pub fn name(&self) -> (r: &str)
        ensures
            r@ == self.entry().name@,
    {
        self.entry_ref().name.as_str()
    }

    pub fn parent_file(&self) -> (r: FileDescriptor)
        ensures
            r.pool_view() == self.pool_view(),
            r.index() == self.entry().file,
    {
        let _p = self.pool.inner_ref();
        proof {
            use_type_invariant(self);
            assert(self.pool_view().enums@[self.index as int].wf_in(
                self.pool_view().files@.len(),
                self.pool_view().messages@.len(),
            ));
        }
        FileDescriptor::new(self.pool.clone_handle(), self.entry_ref().file)
    }

    pub fn parent_message(&self) -> (r: Option<MessageDescriptor>)
        ensures
            r is Some <==> self.entry().parent is Some,
            r is Some ==> r->0.pool_view() == self.pool_view() && Some(r->0.index())
                == self.entry().parent,
    {
        let _p = self.pool.inner_ref();
        proof {
            use_type_invariant(self);
            assert(self.pool_view().enums@[self.index as int].wf_in(
                self.pool_view().files@.len(),
                self.pool_view().messages@.len(),
            ));
        }
        match self.entry_ref().parent {
            Some(p) => Some(MessageDescriptor::new(self.pool.clone_handle(), p)),
            None => None,
        }
    }

    /// The values, in declaration order.
    pub fn values(&self) -> (r: Vec<EnumValueDescriptor>)
        ensures
            r@.len() == self.entry().values@.len(),
            forall|i: int|
                0 <= i < r@.len() ==> (#[trigger] r@[i]).pool_view() == self.pool_view()
                    && r@[i].owner() == self.index() && r@[i].index() == i,
    {
        let _p = self.pool.inner_ref();
        proof {
            use_type_invariant(self);
            assert(self.pool_view().enums@[self.index as int].wf_in(
                self.pool_view().files@.len(),
                self.pool_view().messages@.len(),
            ));
        }
        let n = self.entry_ref().values.len();
        let mut out: Vec<EnumValueDescriptor> = Vec::new();
        let mut i: usize = 0;
        while i < n
            invariant
                i <= n == self.entry().values@.len(),
                n <= u32::MAX,
                self.index() < self.pool_view().enums@.len(),
                out@.len() == i,
                forall|k: int|
                    0 <= k < i ==> (#[trigger] out@[k]).pool_view() == self.pool_view()
                        && out@[k].owner() == self.index() && out@[k].index() == k,
            decreases n - i,
        {
            out.push(EnumValueDescriptor::new(self.pool.clone_handle(), self.index, i as u32));
            i = i + 1;
        }
        out
    }

    /// The value named `name`.
    pub fn get_value_by_name(&self, name: &str) -> (r: Option<EnumValueDescriptor>)
        ensures
            r is Some <==> exists|i: int|
                0 <= i < self.entry().values@.len() && #[trigger] self.entry().values@[i].name@
                    == name@,
            r is Some ==> r->0.pool_view() == self.pool_view() && r->0.owner() == self.index()
                && r->0.entry().name@ == name@,
    {
        let _p = self.pool.inner_ref();
        proof {
            use_type_invariant(self);
            assert(self.pool_view().enums@[self.index as int].wf_in(
                self.pool_view().files@.len(),
                self.pool_view().messages@.len(),
            ));
        }
        let values = &self.entry_ref().values;
        let key = name.to_owned();
        let mut i: usize = 0;
        while i < values.len()
            invariant
                i <= values@.len(),
                *values == self.entry().values,
                values@.len() <= u32::MAX,
                key@ == name@,
                self.index() < self.pool_view().enums@.len(),
                forall|k: int| 0 <= k < i ==> (#[trigger] values@[k]).name@ != name@,
            decreases values@.len() - i,
        {
            if values[i].name == key {
                return Some(EnumValueDescriptor::new(self.pool.clone_handle(), self.index, i as u32));
            }
            i = i + 1;
        }
        None
    }

    /// The first value numbered `number` (aliases share a number).
    pub fn get_value_by_number(&self, number: i32) -> (r: Option<EnumValueDescriptor>)
        ensures
            r is Some <==> first_with_number(self.entry().values@, number) is Some,
            r is Some ==> r->0.pool_view() == self.pool_view() && r->0.owner() == self.index()
                && Some(r->0.index() as int) == first_with_number(self.entry().values@, number),
    {
        let _p = self.pool.inner_ref();
        proof {
            use_type_invariant(self);
            assert(self.pool_view().enums@[self.index as int].wf_in(
                self.pool_view().files@.len(),
                self.pool_view().messages@.len(),
            ));
        }
        let values = &self.entry_ref().values;
        let mut i: usize = 0;
        assert(values@.skip(0) =~= values@);
        while i < values.len()
            invariant
                i <= values@.len(),
                *values == self.entry().values,
                values@.len() <= u32::MAX,
                self.index() < self.pool_view().enums@.len(),
                first_with_number(values@, number) == match first_with_number(
                    values@.skip(i as int),
                    number,
                ) {
                    Some(j) => Some(j + i),
                    None => None,
                },
            decreases values@.len() - i,
        {
            assert(values@.skip(i as int).drop_first() =~= values@.skip(i + 1));
            if values[i].number == number {
                return Some(EnumValueDescriptor::new(self.pool.clone_handle(), self.index, i as u32));
            }
            i = i + 1;
        }
        None
    }
}

/// A value of an enum type.
pub struct EnumValueDescriptor {
    pub(crate) pool: DescriptorPool,
    pub(crate) owner: u32,
    pub(crate) index: u32,
}

impl EnumValueDescriptor {
    #[verifier::type_invariant]
    pub(crate) closed spec fn inv(self) -> bool {
        &&& self.owner < self.pool.view_inner().enums@.len()
        &&& self.index < self.pool.view_inner().enums@[self.owner as int].values@.len()
    }

    pub closed spec fn pool_view(self) -> PoolInner {
        self.pool.view_inner()
    }

    pub closed spec fn owner(self) -> u32 {
        self.owner
    }

    pub closed spec fn index(self) -> u32 {
        self.index
    }

    pub open spec fn entry(self) -> EnumValueEntry {
        self.pool_view().enums@[self.owner() as int].values@[self.index() as int]
    }

    pub(crate) fn new(pool: DescriptorPool, owner: u32, index: u32) -> (r: EnumValueDescriptor)
        requires
            owner < pool.view_inner().enums@.len(),
            index < pool.view_inner().enums@[owner as int].values@.len(),
        ensures
            r.pool_view() == pool.view_inner(),
            r.owner() == owner,
            r.index() == index,
    {
        EnumValueDescriptor { pool, owner, index }
    }

    pub(crate) fn entry_ref(&self) -> (r: &EnumValueEntry)
        ensures
            *r == self.entry(),
    {
        proof {
            use_type_invariant(self);
        }
        &self.pool.inner_ref().enums[self.owner as usize].values[self.index as usize]
    }

    pub fn name(&self) -> (r: &str)
        ensures
            r@ == self.entry().name@,
    {
        self.entry_ref().name.as_str()
    }

    pub fn full_name(&self) -> (r: &str)
        ensures
            r@ == self.entry().full_name@,
    {
        self.entry_ref().full_name.as_str()
    }

    pub fn number(&self) -> (r: i32)
        ensures
            r == self.entry().number,
    {
        self.entry_ref().number
    }

    pub fn parent_enum(&self) -> (r: EnumDescriptor)
        ensures
            r.pool_view() == self.pool_view(),
            r.index() == self.owner(),
    {
        proof {
            use_type_invariant(self);
        }
        EnumDescriptor::new(self.pool.clone_handle(), self.owner)
    }
}

/// A file of a pool.
pub struct FileDescriptor {
    pub(crate) pool: DescriptorPool,
    pub(crate) index: u32,
}

impl FileDescriptor {
    #[verifier::type_invariant]
    pub(crate) closed spec fn inv(self) -> bool {
        self.index < self.pool.view_inner().files@.len()
    }

    pub closed spec fn pool_view(self) -> PoolInner {
        self.pool.view_inner()
    }

    pub closed spec fn index(self) -> u32 {
        self.index
    }

    pub open spec fn entry(self) -> FileEntry {
        self.pool_view().files@[self.index() as int]
    }

    pub(crate) fn new(pool: DescriptorPool, index: u32) -> (r: FileDescriptor)
        requires
            index < pool.view_inner().files@.len(),
        ensures
            r.pool_view() == pool.view_inner(),
            r.index() == index,
    {
        FileDescriptor { pool, index }
    }

    pub(crate) fn entry_ref(&self) -> (r: &FileEntry)
        ensures
            *r == self.entry(),
    {
        proof {
            use_type_invariant(self);
        }
        &self.pool.inner_ref().files[self.index as usize]
    }

    /// The file's name, e.g. `acme/api/v1/user.proto`.
    pub fn name(&self) -> (r: &str)
        ensures
            r@ == self.entry().name@,
    {
        self.entry_ref().name.as_str()
    }

    /// The package, empty when the file declares none.
    pub fn package(&self) -> (r: &str)
        ensures
            r@ == self.entry().package@,
    {
        self.entry_ref().package.as_str()
    }

    /// The syntax, `proto2` when the file declares none.
    pub fn syntax(&self) -> (r: &str)
        ensures
            r@ == self.entry().syntax@,
    {
        self.entry_ref().syntax.as_str()
    }

    /// The top-level messages, in declaration order.
    pub fn messages(&self) -> (r: Vec<MessageDescriptor>)
        ensures
            r@.len() == self.entry().messages@.len(),
            forall|i: int|
                0 <= i < r@.len() ==> (#[trigger] r@[i]).pool_view() == self.pool_view()
                    && r@[i].index() == self.entry().messages@[i],
    {
        let _p = self.pool.inner_ref();
        proof {
            use_type_invariant(self);
            assert(self.pool_view().files@[self.index as int].wf_in(
                self.pool_view().messages@.len(),
                self.pool_view().enums@.len(),
                self.pool_view().services@.len(),
            ));
        }
        let ids = &self.entry_ref().messages;
        let mut out: Vec<MessageDescriptor> = Vec::new();
        let mut i: usize = 0;
        while i < ids.len()
            invariant
                i <= ids@.len(),
                *ids == self.entry().messages,
                forall|k: int| 0 <= k < ids@.len() ==> #[trigger] ids@[k] < self.pool_view().messages@.len(),
                out@.len() == i,
                forall|k: int|
                    0 <= k < i ==> (#[trigger] out@[k]).pool_view() == self.pool_view()
                        && out@[k].index() == ids@[k],
            decreases ids@.len() - i,
        {
            out.push(MessageDescriptor::new(self.pool.clone_handle(), ids[i]));
            i = i + 1;
        }
        out
    }

    /// The top-level enums, in declaration order.
    pub fn enums(&self) -> (r: Vec<EnumDescriptor>)
        ensures
            r@.len() == self.entry().enums@.len(),
            forall|i: int|
                0 <= i < r@.len() ==> (#[trigger] r@[i]).pool_view() == self.pool_view()
                    && r@[i].index() == self.entry().enums@[i],
    {
        let _p = self.pool.inner_ref();
        proof {
            use_type_invariant(self);
            assert(self.pool_view().files@[self.index as int].wf_in(
                self.pool_view().messages@.len(),
                self.pool_view().enums@.len(),
                self.pool_view().services@.len(),
            ));
        }
        let ids = &self.entry_ref().enums;
        let mut out: Vec<EnumDescriptor> = Vec::new();
        let mut i: usize = 0;
        while i < ids.len()
            invariant
                i <= ids@.len(),
                *ids == self.entry().enums,
                forall|k: int| 0 <= k < ids@.len() ==> #[trigger] ids@[k] < self.pool_view().enums@.len(),
                out@.len() == i,
                forall|k: int|
                    0 <= k < i ==> (#[trigger] out@[k]).pool_view() == self.pool_view()
                        && out@[k].index() == ids@[k],
            decreases ids@.len() - i,
        {
            out.push(EnumDescriptor::new(self.pool.clone_handle(), ids[i]));
            i = i + 1;
        }
        out
    }

    /// The services, in declaration order.
    pub fn services(&self) -> (r: Vec<ServiceDescriptor>)
        ensures
            r@.len() == self.entry().services@.len(),
            forall|i: int|
                0 <= i < r@.len() ==> (#[trigger] r@[i]).pool_view() == self.pool_view()
                    && r@[i].index() == self.entry().services@[i],
    {
        let _p = self.pool.inner_ref();
        proof {
            use_type_invariant(self);
            assert(self.pool_view().files@[self.index as int].wf_in(
                self.pool_view().messages@.len(),
                self.pool_view().enums@.len(),
                self.pool_view().services@.len(),
            ));
        }
        let ids = &self.entry_ref().services;
        let mut out: Vec<ServiceDescriptor> = Vec::new();
        let mut i: usize = 0;
        while i < ids.len()
            invariant
                i <= ids@.len(),
                *ids == self.entry().services,
                forall|k: int| 0 <= k < ids@.len() ==> #[trigger] ids@[k] < self.pool_view().services@.len(),
                out@.len() == i,
                forall|k: int|
                    0 <= k < i ==> (#[trigger] out@[k]).pool_view() == self.pool_view()
                        && out@[k].index() == ids@[k],
            decreases ids@.len() - i,
        {
            out.push(ServiceDescriptor::new(self.pool.clone_handle(), ids[i]));
            i = i + 1;
        }
        out
    }

    /// The pool the file belongs to.
    pub fn parent_pool(&self) -> (r: DescriptorPool)
        ensures
            r.view_inner() == self.pool_view(),
    {
        self.pool.clone_handle()
    }

    /// The file's descriptor.
    pub fn descriptor_proto(&self) -> (r: &FileDescriptorProto)
        ensures
            *r == self.entry().proto,
    {
        &self.entry_ref().proto
    }
}

/// A service of a pool.
pub struct ServiceDescriptor {
    pub(crate) pool: DescriptorPool,
    pub(crate) index: u32,
}

impl ServiceDescriptor {
    #[verifier::type_invariant]
    pub(crate) closed spec fn inv(self) -> bool {
        self.index < self.pool.view_inner().services@.len()
    }

    pub closed spec fn pool_view(self) -> PoolInner {
        self.pool.view_inner()
    }

    pub closed spec fn index(self) -> u32 {
        self.index
    }

    pub open spec fn entry(self) -> ServiceEntry {
        self.pool_view().services@[self.index() as int]
    }

    pub(crate) fn new(pool: DescriptorPool, index: u32) -> (r: ServiceDescriptor)
        requires
            index < pool.view_inner().services@.len(),
        ensures
            r.pool_view() == pool.view_inner(),
            r.index() == index,
    {
        ServiceDescriptor { pool, index }
    }

    pub(crate) fn entry_ref(&self) -> (r: &ServiceEntry)
        ensures
            *r == self.entry(),
    {
        proof {
            use_type_invariant(self);
        }
        &self.pool.inner_ref().services[self.index as usize]
    }

    pub fn name(&self) -> (r: &str)
        ensures
            r@ == self.entry().name@,
    {
        self.entry_ref().name.as_str()
    }

    pub fn full_name(&self) -> (r: &str)
        ensures
            r@ == self.entry().full_name@,
    {
        self.entry_ref().full_name.as_str()
    }

    pub fn parent_file(&self) -> (r: FileDescriptor)
        ensures
            r.pool_view() == self.pool_view(),
            r.index() == self.entry().file,
    {
        let _p = self.pool.inner_ref();
        proof {
            use_type_invariant(self);
            assert(self.pool_view().services@[self.index as int].wf_in(
                self.pool_view().files@.len(),
                self.pool_view().messages@.len(),
            ));
        }
        FileDescriptor::new(self.pool.clone_handle(), self.entry_ref().file)
    }

    /// The service's declaration inside its file.
    pub fn descriptor_proto(&self) -> (r: Option<&ServiceDescriptorProto>)
        ensures
            r is Some <==> self.entry().proto_index
                < self.pool_view().files@[self.entry().file as int].proto.service@.len(),
            r is Some ==> *r->0 == self.pool_view().files@[self.entry().file as int].proto.service@[
                self.entry().proto_index as int
            ],
    {
        let _p = self.pool.inner_ref();
        proof {
            use_type_invariant(self);
            assert(self.pool_view().services@[self.index as int].wf_in(
                self.pool_view().files@.len(),
                self.pool_view().messages@.len(),
            ));
        }
        let entry = &self.pool.inner_ref().services[self.index as usize];
        let file = &self.pool.inner_ref().files[entry.file as usize].proto;
        if (entry.proto_index as usize) < file.service.len() {
            Some(&file.service[entry.proto_index as usize])
        } else {
            None
        }
    }

    /// The methods, in declaration order.
    pub fn methods(&self) -> (r: Vec<MethodDescriptor>)
        ensures
            r@.len() == self.entry().methods@.len(),
            forall|i: int|
                0 <= i < r@.len() ==> (#[trigger] r@[i]).pool_view() == self.pool_view()
                    && r@[i].service() == self.index() && r@[i].index() == i,
    {
        let _p = self.pool.inner_ref();
        proof {
            use_type_invariant(self);
            assert(self.pool_view().services@[self.index as int].wf_in(
                self.pool_view().files@.len(),
                self.pool_view().messages@.len(),
            ));
        }
        let n = self.entry_ref().methods.len();
        let mut out: Vec<MethodDescriptor> = Vec::new();
        let mut i: usize = 0;
        while i < n
            invariant
                i <= n == self.entry().methods@.len(),
                n <= u32::MAX,
                self.index() < self.pool_view().services@.len(),
                out@.len() == i,
                forall|k: int|
                    0 <= k < i ==> (#[trigger] out@[k]).pool_view() == self.pool_view()
                        && out@[k].service() == self.index() && out@[k].index() == k,
            decreases n - i,
        {
            out.push(MethodDescriptor::new(self.pool.clone_handle(), self.index, i as u32));
            i = i + 1;
        }
        out
    }
}

/// A method of a service.
pub struct MethodDescriptor {
    pub(crate) pool: DescriptorPool,
    pub(crate) service: u32,
    pub(crate) index: u32,
}

impl MethodDescriptor {
    #[verifier::type_invariant]
    pub(crate) closed spec fn inv(self) -> bool {
        &&& self.service < self.pool.view_inner().services@.len()
        &&& self.index < self.pool.view_inner().services@[self.service as int].methods@.len()
    }

    pub closed spec fn pool_view(self) -> PoolInner {
        self.pool.view_inner()
    }

    pub closed spec fn service(self) -> u32 {
        self.service
    }

    pub closed spec fn index(self) -> u32 {
        self.index
    }

    pub open spec fn entry(self) -> MethodEntry {
        self.pool_view().services@[self.service() as int].methods@[self.index() as int]
    }

    pub(crate) fn new(pool: DescriptorPool, service: u32, index: u32) -> (r: MethodDescriptor)
        requires
            service < pool.view_inner().services@.len(),
            index < pool.view_inner().services@[service as int].methods@.len(),
        ensures
            r.pool_view() == pool.view_inner(),
            r.service() == service,
            r.index() == index,
    {
        MethodDescriptor { pool, service, index }
    }

    pub(crate) fn entry_ref(&self) -> (r: &MethodEntry)
        ensures
            *r == self.entry(),
    {
        proof {
            use_type_invariant(self);
        }
        &self.pool.inner_ref().services[self.service as usize].methods[self.index as usize]
    }

    pub fn name(&self) -> (r: &str)
        ensures
            r@ == self.entry().name@,
    {
        self.entry_ref().name.as_str()
    }

    pub fn full_name(&self) -> (r: &str)
        ensures
            r@ == self.entry().full_name@,
    {
        self.entry_ref().full_name.as_str()
    }

    /// The request message type.
    pub fn input(&self) -> (r: MessageDescriptor)
        ensures
            r.pool_view() == self.pool_view(),
            r.index() == self.entry().input,
    {
        let _p = self.pool.inner_ref();
        proof {
            use_type_invariant(self);
            assert(self.pool_view().services@[self.service as int].wf_in(
                self.pool_view().files@.len(),
                self.pool_view().messages@.len(),
            ));
        }
        MessageDescriptor::new(self.pool.clone_handle(), self.entry_ref().input)
    }

    /// The response message type.
    pub fn output(&self) -> (r: MessageDescriptor)
        ensures
            r.pool_view() == self.pool_view(),
            r.index() == self.entry().output,
    {
        let _p = self.pool.inner_ref();
        proof {
            use_type_invariant(self);
            assert(self.pool_view().services@[self.service as int].wf_in(
                self.pool_view().files@.len(),
                self.pool_view().messages@.len(),
            ));
        }
        proof {
            assert(self.pool_view().services@[self.service as int].methods@[self.index as int].input
                < self.pool_view().messages@.len());
        }
        MessageDescriptor::new(self.pool.clone_handle(), self.entry_ref().output)
    }

    pub fn is_client_streaming(&self) -> (r: bool)
        ensures
            r == self.entry().is_client_streaming,
    {
        self.entry_ref().is_client_streaming
    }

    pub fn is_server_streaming(&self) -> (r: bool)
        ensures
            r == self.entry().is_server_streaming,
    {
        self.entry_ref().is_server_streaming
    }

    pub fn parent_service(&self) -> (r: ServiceDescriptor)
        ensures
            r.pool_view() == self.pool_view(),
            r.index() == self.service(),
    {
        proof {
            use_type_invariant(self);
        }
        ServiceDescriptor::new(self.pool.clone_handle(), self.service)
    }
    /// The method's declaration inside its service's declaration.
    pub fn descriptor_proto(&self) -> (r: Option<&MethodDescriptorProto>)
        ensures
            r is Some <==> ({
                let se = self.pool_view().services@[self.service() as int];
                let svcs = self.pool_view().files@[se.file as int].proto.service@;
                se.proto_index < svcs.len() && self.entry().proto_index
                    < svcs[se.proto_index as int].method@.len()
            }),
            r is Some ==> ({
                let se = self.pool_view().services@[self.service() as int];
                let svcs = self.pool_view().files@[se.file as int].proto.service@;
                &&& se.proto_index < svcs.len()
                &&& self.entry().proto_index < svcs[se.proto_index as int].method@.len()
                &&& *r->0 == svcs[se.proto_index as int].method@[self.entry().proto_index as int]
            }),
    {
        let _p = self.pool.inner_ref();
        proof {
            use_type_invariant(self);
            assert(self.pool_view().services@[self.service as int].wf_in(
                self.pool_view().files@.len(),
                self.pool_view().messages@.len(),
            ));
        }
        let pi = self.entry_ref().proto_index;
        let se = &self.pool.inner_ref().services[self.service as usize];
        let file = &self.pool.inner_ref().files[se.file as usize].proto;
        if (se.proto_index as usize) < file.service.len() {
            let sp = &file.service[se.proto_index as usize];
            if (pi as usize) < sp.method.len() {
                Some(&sp.method[pi as usize])
            } else {
                None
            }
        } else {
            None
        }
    }
}

} // verus!
