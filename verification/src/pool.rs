//! [`DescriptorPool`] — the root handle holding resolved descriptors.
//!
//! The pool stores one entry per file, message, enum and service, all
//! addressed by `u32` indices. Names are kept in ordered tables whose
//! first matching entry wins; the builder rejects duplicates, so a table
//! behaves as a map from fully-qualified name to definition.

use std::sync::Arc;

use vstd::prelude::*;

use crate::descriptor::{FileDescriptorProto, FileDescriptorSet};
use crate::error::DescriptorError;
use crate::handles::{EnumDescriptor, FileDescriptor, MessageDescriptor, ServiceDescriptor};
use crate::pool_build::{
    file_names_in_use, file_registered, files_reg, grows, ingest_file_descriptor_set,
    file_names_bound, message_resolved, name_from_set, names_in_use, plain_file, same_contents, set_registrable, set_services_ok, set_shapes_ok,
    set_targets_resolve, spec_enum_ok,
};
use crate::text::{spec_strip_dot, strip_leading_dot};

verus! {

/// What a fully-qualified name refers to in the pool.
#[derive(Clone, Copy, Debug, PartialEq, Eq, Structural)]
pub enum Definition {
    Message(u32),
    Enum(u32),
}

/// Field cardinality (proto label).
#[derive(Clone, Copy, Debug, PartialEq, Eq, Structural)]
pub enum Cardinality {
    /// `optional` (the proto3 default and proto2 explicit `optional`).
    Optional,
    /// `required` — proto2 only.
    Required,
    /// `repeated`.
    Repeated,
}

/// Pool-relative field kind: scalars, or the index of a message or enum.
#[derive(Clone, Copy, Debug, PartialEq, Eq, Structural)]
pub enum KindRef {
    Double,
    Float,
    Int32,
    Int64,
    Uint32,
    Uint64,
    Sint32,
    Sint64,
    Fixed32,
    Fixed64,
    Sfixed32,
    Sfixed64,
    Bool,
    String,
    Bytes,
    Message(u32),
    Enum(u32),
}

/// A parsed `[default = …]` literal. Floating-point defaults keep their
/// source text.
#[derive(Clone, Debug)]
pub enum DefaultValue {
    Bool(bool),
    I32(i32),
    I64(i64),
    U32(u32),
    U64(u64),
    FloatLiteral(String),
    String(String),
    Bytes(Vec<u8>),
    EnumNumber(i32),
}

#[derive(Clone)]
pub struct FileEntry {
    /// The file's descriptor, shared between copies of the pool.
    pub proto: Arc<FileDescriptorProto>,
    pub name: String,
    pub package: String,
    pub syntax: String,
    /// Top-level message indices owned by this file.
    pub messages: Vec<u32>,
    /// Top-level enum indices owned by this file.
    pub enums: Vec<u32>,
    /// Service indices declared by this file.
    pub services: Vec<u32>,
}

#[derive(Clone)]
pub struct MessageEntry {
    pub full_name: String,
    pub name: String,
    pub file: u32,
    pub parent: Option<u32>,
    /// Index path to the `DescriptorProto` inside its file.
    pub proto_path: Vec<u32>,
    /// Resolved fields, in declaration order.
    pub fields: Vec<FieldEntry>,
    /// Resolved oneofs, in declaration order.
    pub oneofs: Vec<OneofEntry>,
    pub nested_messages: Vec<u32>,
    pub nested_enums: Vec<u32>,
    pub is_map_entry: bool,
}

#[derive(Clone)]
pub struct FieldEntry {
    pub name: String,
    pub full_name: String,
    pub json_name: String,
    pub number: u32,
    pub kind: KindRef,
    pub cardinality: Cardinality,
    pub supports_presence: bool,
    pub is_packed: bool,
    pub oneof_index: Option<u32>,
    pub proto_field_index: u32,
    pub parsed_default: Option<DefaultValue>,
}

#[derive(Clone)]
pub struct OneofEntry {
    pub name: String,
    pub full_name: String,
    pub is_synthetic: bool,
    /// Indices into the owning message's `fields`.
    pub field_indices: Vec<u32>,
    pub proto_index: u32,
}

#[derive(Clone)]
pub struct EnumEntry {
    pub full_name: String,
    pub name: String,
    pub file: u32,
    pub parent: Option<u32>,
    pub values: Vec<EnumValueEntry>,
    pub proto_path: Vec<u32>,
}

#[derive(Clone)]
pub struct EnumValueEntry {
    pub name: String,
    pub full_name: String,
    pub number: i32,
}

#[derive(Clone)]
pub struct ServiceEntry {
    pub full_name: String,
    pub name: String,
    pub file: u32,
    pub proto_index: u32,
    pub methods: Vec<MethodEntry>,
}

#[derive(Clone)]
pub struct MethodEntry {
    pub name: String,
    pub full_name: String,
    pub input: u32,
    pub output: u32,
    pub is_client_streaming: bool,
    pub is_server_streaming: bool,
    pub proto_index: u32,
}

/// Everything a pool holds.
#[derive(Clone)]
pub struct PoolInner {
    pub names: Vec<(String, Definition)>,
    pub file_names: Vec<(String, u32)>,
    pub service_names: Vec<(String, u32)>,
    pub files: Vec<FileEntry>,
    pub messages: Vec<MessageEntry>,
    pub enums: Vec<EnumEntry>,
    pub services: Vec<ServiceEntry>,
}

/// First value bound to `key` in an ordered name table.
pub open spec fn table_get<V>(t: Seq<(String, V)>, key: Seq<char>) -> Option<V>
    decreases t.len(),
{
    if t.len() == 0 {
        None
    } else if t[0].0@ == key {
        Some(t[0].1)
    } else {
        table_get(t.drop_first(), key)
    }
}

pub proof fn lemma_table_get_push<V>(t: Seq<(String, V)>, k: String, v: V, key: Seq<char>)
    ensures
        table_get(t.push((k, v)), key) == (if table_get(t, key) is Some {
            table_get(t, key)
        } else if k@ == key {
            Some(v)
        } else {
            None
        }),
    decreases t.len(),
{
    if t.len() > 0 {
        assert(t.push((k, v)).drop_first() =~= t.drop_first().push((k, v)));
        assert(t.push((k, v))[0] == t[0]);
        lemma_table_get_push(t.drop_first(), k, v, key);
    } else {
        let e = Seq::<(String, V)>::empty();
        assert(t.push((k, v)).drop_first() =~= e);
        assert(t.push((k, v))[0] == (k, v));
        assert(table_get(e, key) is None);
    }
}

pub proof fn lemma_table_get_some<V>(t: Seq<(String, V)>, key: Seq<char>)
    ensures
        table_get(t, key) matches Some(v) ==> exists|i: int|
            0 <= i < t.len() && t[i].0@ == key && t[i].1 == v,
        (exists|i: int| 0 <= i < t.len() && t[i].0@ == key) ==> table_get(t, key) is Some,
    decreases t.len(),
{
    if t.len() > 0 {
        lemma_table_get_some(t.drop_first(), key);
        if table_get(t, key) is Some && t[0].0@ != key {
            let v = table_get(t, key)->0;
            let j = choose|j: int|
                0 <= j < t.drop_first().len() && t.drop_first()[j].0@ == key
                    && t.drop_first()[j].1 == v;
            assert(t[j + 1] == t.drop_first()[j]);
        }
        if exists|i: int| 0 <= i < t.len() && t[i].0@ == key {
            let i = choose|i: int| 0 <= i < t.len() && t[i].0@ == key;
            if i > 0 {
                assert(t.drop_first()[i - 1] == t[i]);
            }
        }
    }
}

/// Look `key` up in an ordered name table.
pub fn table_find<V: Copy>(t: &Vec<(String, V)>, key: &String) -> (r: Option<V>)
    ensures
        r == table_get(t@, key@),
{
    let mut i: usize = 0;
    assert(t@.skip(0) =~= t@);
    while i < t.len()
        invariant
            i <= t.len(),
            table_get(t@, key@) == table_get(t@.skip(i as int), key@),
        decreases t.len() - i,
    {
        assert(t@.skip(i as int).drop_first() =~= t@.skip(i + 1));
        if t[i].0 == *key {
            return Some(t[i].1);
        }
        i = i + 1;
    }
    None
}

pub open spec fn kind_ok(k: KindRef, n_messages: nat, n_enums: nat) -> bool {
    match k {
        KindRef::Message(m) => m < n_messages,
        KindRef::Enum(e) => e < n_enums,
        _ => true,
    }
}

pub open spec fn def_ok(d: Definition, n_messages: nat, n_enums: nat) -> bool {
    match d {
        Definition::Message(m) => m < n_messages,
        Definition::Enum(e) => e < n_enums,
    }
}

impl MessageEntry {
    pub open spec fn wf_in(&self, n_files: nat, n_messages: nat, n_enums: nat) -> bool {
        &&& self.file < n_files
        &&& (self.parent matches Some(p) ==> p < n_messages)
        &&& forall|i: int|
            0 <= i < self.nested_messages@.len() ==> #[trigger] self.nested_messages@[i]
                < n_messages
        &&& forall|i: int|
            0 <= i < self.nested_enums@.len() ==> #[trigger] self.nested_enums@[i] < n_enums
        &&& self.fields@.len() <= u32::MAX
        &&& self.oneofs@.len() <= u32::MAX
        &&& forall|i: int|
            0 <= i < self.fields@.len() ==> kind_ok(
                #[trigger] self.fields@[i].kind,
                n_messages,
                n_enums,
            ) && (self.fields@[i].oneof_index matches Some(o) ==> o < self.oneofs@.len())
        &&& forall|o: int, j: int|
            0 <= o < self.oneofs@.len() && 0 <= j < self.oneofs@[o].field_indices@.len()
                ==> #[trigger] self.oneofs@[o].field_indices@[j] < self.fields@.len()
        &&& forall|i: int, j: int|
            0 <= i < j < self.fields@.len() ==> #[trigger] self.fields@[i].number
                != #[trigger] self.fields@[j].number
        &&& forall|i: int, j: int|
            0 <= i < j < self.fields@.len() ==> #[trigger] self.fields@[i].name@
                != #[trigger] self.fields@[j].name@
    }
}

impl EnumEntry {
    pub open spec fn wf_in(&self, n_files: nat, n_messages: nat) -> bool {
        &&& self.file < n_files
        &&& (self.parent matches Some(p) ==> p < n_messages)
        &&& self.values@.len() <= u32::MAX
    }
}

impl FileEntry {
    pub open spec fn wf_in(&self, n_messages: nat, n_enums: nat, n_services: nat) -> bool {
        &&& forall|i: int|
            0 <= i < self.messages@.len() ==> #[trigger] self.messages@[i] < n_messages
        &&& forall|i: int| 0 <= i < self.enums@.len() ==> #[trigger] self.enums@[i] < n_enums
        &&& forall|i: int|
            0 <= i < self.services@.len() ==> #[trigger] self.services@[i] < n_services
    }
}

impl ServiceEntry {
    pub open spec fn wf_in(&self, n_files: nat, n_messages: nat) -> bool {
        &&& self.file < n_files
        &&& self.methods@.len() <= u32::MAX
        &&& forall|i: int|
            0 <= i < self.methods@.len() ==> #[trigger] self.methods@[i].input < n_messages
                && self.methods@[i].output < n_messages
    }
}

impl PoolInner {
    /// Every index stored anywhere in the pool addresses an existing
    /// entry (files: up to `extra` more than are stored, for entries of a
    /// file still being registered), and every table fits `u32` indexing.
    pub open spec fn wf_pending(&self, extra: nat) -> bool {
        let nf = self.files@.len();
        let nfx = nf + extra;
        let nm = self.messages@.len();
        let ne = self.enums@.len();
        let ns = self.services@.len();
        &&& nfx <= u32::MAX
        &&& nm <= u32::MAX
        &&& ne <= u32::MAX
        &&& ns <= u32::MAX
        &&& forall|i: int| 0 <= i < nm ==> (#[trigger] self.messages@[i]).wf_in(nfx, nm, ne)
        &&& forall|i: int| 0 <= i < ne ==> (#[trigger] self.enums@[i]).wf_in(nfx, nm)
        &&& forall|i: int| 0 <= i < nf ==> (#[trigger] self.files@[i]).wf_in(nm, ne, ns)
        &&& forall|i: int| 0 <= i < ns ==> (#[trigger] self.services@[i]).wf_in(nf, nm)
        &&& forall|i: int| 0 <= i < self.names@.len() ==> def_ok(#[trigger] self.names@[i].1, nm, ne)
        &&& forall|i: int| 0 <= i < self.file_names@.len() ==> #[trigger] self.file_names@[i].1 < nf
        &&& forall|i: int|
            0 <= i < self.service_names@.len() ==> #[trigger] self.service_names@[i].1 < ns
    }

    /// Well-formedness of a finished pool.
    pub open spec fn wf(&self) -> bool {
        self.wf_pending(0)
    }

    /// The empty pool.
    pub fn empty() -> (r: PoolInner)
        ensures
            r.wf(),
            r.files@.len() == 0,
            r.messages@.len() == 0,
            r.enums@.len() == 0,
            r.services@.len() == 0,
            r.names@.len() == 0,
            r.file_names@.len() == 0,
            r.service_names@.len() == 0,
    {
        PoolInner {
            names: Vec::new(),
            file_names: Vec::new(),
            service_names: Vec::new(),
            files: Vec::new(),
            messages: Vec::new(),
            enums: Vec::new(),
            services: Vec::new(),
        }
    }
}

/// `Arc::unwrap_or_clone`: the contents, moved out when this is the last
/// handle, otherwise a clone. The derived clones of the pool's plain-data
/// types copy every field, so either way the result equals the contents.
#[verifier::external_body]
pub(crate) fn unwrap_shared(p: Arc<PoolInner>) -> (r: PoolInner)
    ensures
        r == *p,
{
    Arc::unwrap_or_clone(p)
}

/// `Arc::ptr_eq`: whether two handles share one allocation. Sharing one
/// allocation implies equal contents; equal contents in two allocations
/// give `false`.
#[verifier::external_body]
pub(crate) fn same_allocation(a: &DescriptorPool, b: &DescriptorPool) -> (r: bool)
    ensures
        r ==> a.view_inner() == b.view_inner(),
{
    Arc::ptr_eq(&a.inner, &b.inner)
}

/// `Arc::clone`: a second handle to the same pool contents.
#[verifier::external_body]
pub(crate) fn share(p: &Arc<PoolInner>) -> (r: Arc<PoolInner>)
    ensures
        *r == **p,
{
    Arc::clone(p)
}

/// A pool of protobuf descriptors built from one or more file descriptor
/// sets. Descriptor handles each carry a shared reference to the pool.
pub struct DescriptorPool {
    pub(crate) inner: Arc<PoolInner>,
}

impl DescriptorPool {
    #[verifier::type_invariant]
    pub(crate) closed spec fn inv(self) -> bool {
        self.inner.wf()
    }

    /// The pool contents.
    pub closed spec fn view_inner(self) -> PoolInner {
        *self.inner
    }

    /// Construct an empty pool.
    pub fn new() -> (r: DescriptorPool)
        ensures
            r.view_inner().files@.len() == 0,
            r.view_inner().messages@.len() == 0,
            r.view_inner().enums@.len() == 0,
            r.view_inner().services@.len() == 0,
            r.view_inner().names@.len() == 0,
            r.view_inner().file_names@.len() == 0,
            r.view_inner().service_names@.len() == 0,
    {
        DescriptorPool { inner: Arc::new(PoolInner::empty()) }
    }

    pub(crate) fn from_inner(inner: PoolInner) -> (r: DescriptorPool)
        requires
            inner.wf(),
        ensures
            r.view_inner() == inner,
    {
        DescriptorPool { inner: Arc::new(inner) }
    }

    /// A second handle to the same pool.
    pub fn clone_handle(&self) -> (r: DescriptorPool)
        ensures
            r.view_inner() == self.view_inner(),
    {
        proof {
            use_type_invariant(self);
        }
        DescriptorPool { inner: share(&self.inner) }
    }

    /// The pool contents, well-formed.
    pub(crate) fn inner_ref(&self) -> (r: &PoolInner)
        ensures
            *r == self.view_inner(),
            r.wf(),
    {
        proof {
            use_type_invariant(self);
        }
        &self.inner
    }

    /// Number of files in the pool.
    pub fn file_count(&self) -> (n: usize)
        ensures
            n == self.view_inner().files@.len(),
    {
        self.inner.files.len()
    }

    /// Number of messages (including nested and map-entry messages).
    pub fn message_count(&self) -> (n: usize)
        ensures
            n == self.view_inner().messages@.len(),
    {
        self.inner.messages.len()
    }

    /// Number of enums (including nested enums).
    pub fn enum_count(&self) -> (n: usize)
        ensures
            n == self.view_inner().enums@.len(),
    {
        self.inner.enums.len()
    }

    /// Number of services.
    pub fn service_count(&self) -> (n: usize)
        ensures
            n == self.view_inner().services@.len(),
    {
        self.inner.services.len()
    }

    /// What a fully-qualified name (with or without a leading dot) names.
    pub open spec fn spec_lookup(self, full_name: Seq<char>) -> Option<Definition> {
        table_get(self.view_inner().names@, spec_strip_dot(full_name))
    }

    /// Resolve a fully-qualified name, with or without a leading dot.
    pub fn lookup_name(&self, full_name: &str) -> (r: Option<Definition>)
        ensures
            r == self.spec_lookup(full_name@),
    {
        let key = strip_leading_dot(full_name);
        table_find(&self.inner.names, &key)
    }
}


impl DescriptorPool {
    /// Merge another file descriptor set into the pool. Handles taken
    /// before the call keep seeing the pool as it was. When the set is
    /// rejected the pool is left unchanged.
    pub fn add_file_descriptor_set(&mut self, fds: FileDescriptorSet) -> (r: Result<
        (),
        DescriptorError,
    >)
        ensures
            r is Err ==> same_contents(&old(self).view_inner(), &final(self).view_inner()),
            r is Ok ==> grows(&old(self).view_inner(), &final(self).view_inner()),
            r is Ok ==> final(self).view_inner().files@.len() == old(self).view_inner().files@.len()
                + fds.file@.len(),
            r is Ok ==> forall|i: int|
                0 <= i < fds.file@.len() ==> file_registered(
                    &final(self).view_inner(),
                    old(self).view_inner().files@.len() + i,
                    &#[trigger] fds.file@[i],
                ),
            r is Ok ==> forall|e: int|
                old(self).view_inner().enums@.len() <= e < final(self).view_inner().enums@.len()
                    ==> spec_enum_ok(&final(self).view_inner(), e),
            !set_registrable(&old(self).view_inner(), fds.file@) ==> r is Err,
            (set_registrable(&old(self).view_inner(), fds.file@) && set_targets_resolve(
                old(self).view_inner().names@,
                fds.file@,
            ) && set_services_ok(
                old(self).view_inner().names@,
                old(self).view_inner().service_names@,
                old(self).view_inner().services@.len(),
                fds.file@,
            ) && forall|i: int| 0 <= i < fds.file@.len() ==> plain_file(#[trigger] fds.file@[i]))
                ==> r is Ok,
            r is Ok ==> forall|i: int|
                0 <= i < fds.file@.len() ==> file_names_bound(
                    final(self).view_inner().names@,
                    #[trigger] fds.file@[i],
                ),
            r is Ok ==> forall|k: int|
                old(self).view_inner().names@.len() <= k < final(self).view_inner().names@.len()
                    ==> name_from_set(#[trigger] final(self).view_inner().names@[k], fds.file@),
            r is Ok ==> set_targets_resolve(old(self).view_inner().names@, fds.file@),
            r is Ok ==> set_shapes_ok(fds.file@),
            r is Ok ==> forall|k: int|
                old(self).view_inner().messages@.len() <= k < final(self).view_inner().messages@.len()
                    ==> #[trigger] message_resolved(&final(self).view_inner(), k),
    {
        proof {
            use_type_invariant(&*self);
        }
        let mut taken = Arc::new(PoolInner::empty());
        std::mem::swap(&mut self.inner, &mut taken);
        let mut inner = unwrap_shared(taken);
        let r = ingest_file_descriptor_set(&mut inner, fds);
        self.inner = Arc::new(inner);
        r
    }

    /// Build a pool from a file descriptor set.
    pub fn from_file_descriptor_set(fds: FileDescriptorSet) -> (r: Result<
        DescriptorPool,
        DescriptorError,
    >)
        ensures
            r is Ok ==> r->Ok_0.view_inner().files@.len() == fds.file@.len(),
            r is Ok ==> forall|i: int|
                0 <= i < fds.file@.len() ==> file_registered(
                    &r->Ok_0.view_inner(),
                    i,
                    &#[trigger] fds.file@[i],
                ),
            r is Ok ==> forall|e: int|
                0 <= e < r->Ok_0.view_inner().enums@.len() ==> spec_enum_ok(
                    &r->Ok_0.view_inner(),
                    e,
                ),
            !files_reg(fds.file@, 0, Set::empty(), 0, Set::empty(), 0, 0) ==> r is Err,
            (files_reg(fds.file@, 0, Set::empty(), 0, Set::empty(), 0, 0) && set_targets_resolve(
                Seq::empty(),
                fds.file@,
            ) && set_services_ok(Seq::empty(), Seq::empty(), 0, fds.file@) && forall|i: int| 0 <= i < fds.file@.len() ==> plain_file(#[trigger] fds.file@[i]))
                ==> r is Ok,
            r is Ok ==> forall|i: int|
                0 <= i < fds.file@.len() ==> file_names_bound(
                    r->Ok_0.view_inner().names@,
                    #[trigger] fds.file@[i],
                ),
            r is Ok ==> forall|k: int|
                0 <= k < r->Ok_0.view_inner().names@.len() ==> name_from_set(
                    #[trigger] r->Ok_0.view_inner().names@[k],
                    fds.file@,
                ),
            r is Ok ==> set_targets_resolve(Seq::empty(), fds.file@),
            r is Ok ==> set_shapes_ok(fds.file@),
            r is Ok ==> forall|k: int|
                0 <= k < r->Ok_0.view_inner().messages@.len() ==> #[trigger] message_resolved(
                    &r->Ok_0.view_inner(),
                    k,
                ),
    {
        let mut pool = DescriptorPool::new();
        proof {
            let p = pool.view_inner();
            assert(file_names_in_use(&p) =~= Set::<Seq<char>>::empty());
            assert(names_in_use(&p) =~= Set::<Seq<char>>::empty());
            assert(p.names@ =~= Seq::<(String, Definition)>::empty());
            assert(p.service_names@ =~= Seq::<(String, u32)>::empty());
        }
        match pool.add_file_descriptor_set(fds) {
            Ok(()) => Ok(pool),
            Err(e) => Err(e),
        }
    }

    /// What a fully-qualified file name names.
    pub open spec fn spec_file(self, name: Seq<char>) -> Option<u32> {
        table_get(self.view_inner().file_names@, name)
    }

    /// Resolve a fully-qualified message name (with or without a leading
    /// dot).
    pub fn get_message_by_name(&self, full_name: &str) -> (r: Option<MessageDescriptor>)
        ensures
            r is Some <==> self.spec_lookup(full_name@) matches Some(Definition::Message(_)),
            r is Some ==> r->0.pool_view() == self.view_inner() && Some(
                Definition::Message(r->0.index()),
            ) == self.spec_lookup(full_name@),
    {
        proof {
            use_type_invariant(self);
        }
        match self.lookup_name(full_name) {
            Some(Definition::Message(i)) => {
                proof {
                    lemma_table_get_some(self.view_inner().names@, spec_strip_dot(full_name@));
                }
                Some(MessageDescriptor::new(self.clone_handle(), i))
            },
            _ => None,
        }
    }

    /// Resolve a fully-qualified enum name (with or without a leading dot).
    pub fn get_enum_by_name(&self, full_name: &str) -> (r: Option<EnumDescriptor>)
        ensures
            r is Some <==> self.spec_lookup(full_name@) matches Some(Definition::Enum(_)),
            r is Some ==> r->0.pool_view() == self.view_inner() && Some(
                Definition::Enum(r->0.index()),
            ) == self.spec_lookup(full_name@),
    {
        proof {
            use_type_invariant(self);
        }
        match self.lookup_name(full_name) {
            Some(Definition::Enum(i)) => {
                proof {
                    lemma_table_get_some(self.view_inner().names@, spec_strip_dot(full_name@));
                }
                Some(EnumDescriptor::new(self.clone_handle(), i))
            },
            _ => None,
        }
    }

    /// Resolve a file by its descriptor name.
    pub fn get_file_by_name(&self, name: &str) -> (r: Option<FileDescriptor>)
        ensures
            r is Some <==> self.spec_file(name@) is Some,
            r is Some ==> r->0.pool_view() == self.view_inner() && Some(r->0.index())
                == self.spec_file(name@),
    {
        proof {
            use_type_invariant(self);
        }
        let key = name.to_owned();
        match table_find(&self.inner.file_names, &key) {
            Some(i) => {
                proof {
                    lemma_table_get_some(self.view_inner().file_names@, name@);
                }
                Some(FileDescriptor::new(self.clone_handle(), i))
            },
            None => None,
        }
    }

    /// Resolve a fully-qualified service name (with or without a leading
    /// dot).
    pub fn get_service_by_name(&self, full_name: &str) -> (r: Option<ServiceDescriptor>)
        ensures
            r is Some <==> table_get(
                self.view_inner().service_names@,
                spec_strip_dot(full_name@),
            ) is Some,
            r is Some ==> r->0.pool_view() == self.view_inner() && Some(r->0.index()) == table_get(
                self.view_inner().service_names@,
                spec_strip_dot(full_name@),
            ),
    {
        proof {
            use_type_invariant(self);
        }
        let key = strip_leading_dot(full_name);
        match table_find(&self.inner.service_names, &key) {
            Some(i) => {
                proof {
                    lemma_table_get_some(self.view_inner().service_names@, key@);
                }
                Some(ServiceDescriptor::new(self.clone_handle(), i))
            },
            None => None,
        }
    }

    /// Every file of the pool, in registration order.
    pub fn files(&self) -> (r: Vec<FileDescriptor>)
        ensures
            r@.len() == self.view_inner().files@.len(),
            forall|i: int|
                0 <= i < r@.len() ==> (#[trigger] r@[i]).index() == i && r@[i].pool_view()
                    == self.view_inner(),
    {
        proof {
            use_type_invariant(self);
        }
        let mut out: Vec<FileDescriptor> = Vec::new();
        let n = self.inner.files.len();
        let mut i: usize = 0;
        while i < n
            invariant
                i <= n == self.view_inner().files@.len(),
                n <= u32::MAX,
                out@.len() == i,
                forall|k: int|
                    0 <= k < i ==> (#[trigger] out@[k]).index() == k && out@[k].pool_view()
                        == self.view_inner(),
            decreases n - i,
        {
            out.push(FileDescriptor::new(self.clone_handle(), i as u32));
            i = i + 1;
        }
        out
    }

    /// Every message of the pool, nested and map-entry messages included.
    pub fn all_messages(&self) -> (r: Vec<MessageDescriptor>)
        ensures
            r@.len() == self.view_inner().messages@.len(),
            forall|i: int|
                0 <= i < r@.len() ==> (#[trigger] r@[i]).index() == i && r@[i].pool_view()
                    == self.view_inner(),
    {
        proof {
            use_type_invariant(self);
        }
        let mut out: Vec<MessageDescriptor> = Vec::new();
        let n = self.inner.messages.len();
        let mut i: usize = 0;
        while i < n
            invariant
                i <= n == self.view_inner().messages@.len(),
                n <= u32::MAX,
                out@.len() == i,
                forall|k: int|
                    0 <= k < i ==> (#[trigger] out@[k]).index() == k && out@[k].pool_view()
                        == self.view_inner(),
            decreases n - i,
        {
            out.push(MessageDescriptor::new(self.clone_handle(), i as u32));
            i = i + 1;
        }
        out
    }

    /// Every enum of the pool, nested enums included.
    pub fn all_enums(&self) -> (r: Vec<EnumDescriptor>)
        ensures
            r@.len() == self.view_inner().enums@.len(),
            forall|i: int|
                0 <= i < r@.len() ==> (#[trigger] r@[i]).index() == i && r@[i].pool_view()
                    == self.view_inner(),
    {
        proof {
            use_type_invariant(self);
        }
        let mut out: Vec<EnumDescriptor> = Vec::new();
        let n = self.inner.enums.len();
        let mut i: usize = 0;
        while i < n
            invariant
                i <= n == self.view_inner().enums@.len(),
                n <= u32::MAX,
                out@.len() == i,
                forall|k: int|
                    0 <= k < i ==> (#[trigger] out@[k]).index() == k && out@[k].pool_view()
                        == self.view_inner(),
            decreases n - i,
        {
            out.push(EnumDescriptor::new(self.clone_handle(), i as u32));
            i = i + 1;
        }
        out
    }

    /// Every service of the pool.
    pub fn services(&self) -> (r: Vec<ServiceDescriptor>)
        ensures
            r@.len() == self.view_inner().services@.len(),
            forall|i: int|
                0 <= i < r@.len() ==> (#[trigger] r@[i]).index() == i && r@[i].pool_view()
                    == self.view_inner(),
    {
        proof {
            use_type_invariant(self);
        }
        let mut out: Vec<ServiceDescriptor> = Vec::new();
        let n = self.inner.services.len();
        let mut i: usize = 0;
        while i < n
            invariant
                i <= n == self.view_inner().services@.len(),
                n <= u32::MAX,
                out@.len() == i,
                forall|k: int|
                    0 <= k < i ==> (#[trigger] out@[k]).index() == k && out@[k].pool_view()
                        == self.view_inner(),
            decreases n - i,
        {
            out.push(ServiceDescriptor::new(self.clone_handle(), i as u32));
            i = i + 1;
        }
        out
    }
}

} // verus!
