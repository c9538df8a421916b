//! Field values of dynamic messages, map keys, unknown wire fields, and
//! the mathematical models the contracts are stated over.
//!
//! Floating-point values are carried as their IEEE-754 bit patterns
//! (`F32` holds the bits of an `f32`, `F64` those of an `f64`).

use vstd::prelude::*;

use crate::handles::{FieldDescriptor, Kind, MessageDescriptor};
use crate::message::{DynamicMessage, MessageModel};
use crate::pool::{KindRef, PoolInner};

verus! {

/// A key of a map field.
pub enum MapKey {
    Bool(bool),
    I32(i32),
    I64(i64),
    U32(u32),
    U64(u64),
    String(String),
}

/// The value of one field of a [`DynamicMessage`].
pub enum Value {
    Bool(bool),
    I32(i32),
    I64(i64),
    U32(u32),
    U64(u64),
    /// Bit pattern of an `f32`.
    F32(u32),
    /// Bit pattern of an `f64`.
    F64(u64),
    String(String),
    Bytes(Vec<u8>),
    EnumNumber(i32),
    Message(DynamicMessage),
    List(Vec<Value>),
    /// Map entries, each key once, in the order the keys were first stored.
    Mapping(Vec<(MapKey, Value)>),
}

/// Why a field could not be set.
pub enum SetFieldError {
    /// No field of that name or number.
    NotFound,
    /// The value does not fit the field's type.
    InvalidType { field: FieldDescriptor, value: Box<Value> },
}

impl SetFieldError {
    /// A one-line description of the error.
    pub fn message(&self) -> (r: String)
        ensures
            self is NotFound ==> r@ == "field not found"@,
            self matches SetFieldError::InvalidType { field, .. } ==> r@ == "invalid value for field `"@
                + field.entry().full_name@ + "`"@,
    {
        match self {
            SetFieldError::NotFound => "field not found".to_owned(),
            SetFieldError::InvalidType { field, .. } => {
                let mut m = "invalid value for field `".to_owned();
                m.push_str(field.full_name());
                m.push_str("`");
                m
            },
        }
    }
}

/// The payload of a field the message's descriptor does not know.
pub enum UnknownFieldData {
    Varint(u64),
    Fixed64(u64),
    Fixed32(u32),
    LengthDelimited(Vec<u8>),
    Group(Vec<UnknownField>),
}

/// A field the message's descriptor does not know, kept for re-encoding.
pub struct UnknownField {
    pub number: u32,
    pub data: UnknownFieldData,
}

/// Every unknown field seen for one field number, in arrival order.
pub struct UnknownFieldSet {
    pub items: Vec<UnknownField>,
}

// ── models ──────────────────────────────────────────────────────────────

/// Mathematical model of a map key.
pub enum KeyModel {
    Bool(bool),
    I32(i32),
    I64(i64),
    U32(u32),
    U64(u64),
    Str(Seq<char>),
}

/// Mathematical model of a value.
pub enum ValueModel {
    Bool(bool),
    I32(i32),
    I64(i64),
    U32(u32),
    U64(u64),
    F32(u32),
    F64(u64),
    Str(Seq<char>),
    Bytes(Seq<u8>),
    EnumNumber(i32),
    Message(MessageModel),
    List(Seq<ValueModel>),
    Mapping(Seq<(KeyModel, ValueModel)>),
}

/// Mathematical model of an unknown field.
pub enum UnknownModel {
    Varint(u32, u64),
    Fixed64(u32, u64),
    Fixed32(u32, u32),
    LengthDelimited(u32, Seq<u8>),
    Group(u32, Seq<UnknownModel>),
}

impl MapKey {
    pub open spec fn model(&self) -> KeyModel {
        match self {
            MapKey::Bool(b) => KeyModel::Bool(*b),
            MapKey::I32(v) => KeyModel::I32(*v),
            MapKey::I64(v) => KeyModel::I64(*v),
            MapKey::U32(v) => KeyModel::U32(*v),
            MapKey::U64(v) => KeyModel::U64(*v),
            MapKey::String(s) => KeyModel::Str(s@),
        }
    }

    /// A copy of this key.
    pub fn duplicate(&self) -> (r: MapKey)
        ensures
            r.model() == self.model(),
    {
        match self {
            MapKey::Bool(b) => MapKey::Bool(*b),
            MapKey::I32(v) => MapKey::I32(*v),
            MapKey::I64(v) => MapKey::I64(*v),
            MapKey::U32(v) => MapKey::U32(*v),
            MapKey::U64(v) => MapKey::U64(*v),
            MapKey::String(s) => MapKey::String(s.clone()),
        }
    }
}

impl Value {
    pub open spec fn model(&self) -> ValueModel
        decreases self,
    {
        match self {
            Value::Bool(b) => ValueModel::Bool(*b),
            Value::I32(v) => ValueModel::I32(*v),
            Value::I64(v) => ValueModel::I64(*v),
            Value::U32(v) => ValueModel::U32(*v),
            Value::U64(v) => ValueModel::U64(*v),
            Value::F32(v) => ValueModel::F32(*v),
            Value::F64(v) => ValueModel::F64(*v),
            Value::String(s) => ValueModel::Str(s@),
            Value::Bytes(b) => ValueModel::Bytes(b@),
            Value::EnumNumber(n) => ValueModel::EnumNumber(*n),
            Value::Message(m) => ValueModel::Message(m.model()),
            Value::List(items) => ValueModel::List(models_of(items@)),
            Value::Mapping(entries) => ValueModel::Mapping(entry_models(entries@)),
        }
    }
}

/// Models of a sequence of values.
pub open spec fn models_of(s: Seq<Value>) -> Seq<ValueModel>
    decreases s,
{
    if s.len() == 0 {
        seq![]
    } else {
        seq![s[0].model()] + models_of(s.subrange(1, s.len() as int))
    }
}

/// Models of a sequence of map entries.
pub open spec fn entry_models(s: Seq<(MapKey, Value)>) -> Seq<(KeyModel, ValueModel)>
    decreases s,
{
    if s.len() == 0 {
        seq![]
    } else {
        seq![(s[0].0.model(), s[0].1.model())] + entry_models(s.subrange(1, s.len() as int))
    }
}

impl UnknownField {
    pub open spec fn model(&self) -> UnknownModel
        decreases self,
    {
        match &self.data {
            UnknownFieldData::Varint(v) => UnknownModel::Varint(self.number, *v),
            UnknownFieldData::Fixed64(v) => UnknownModel::Fixed64(self.number, *v),
            UnknownFieldData::Fixed32(v) => UnknownModel::Fixed32(self.number, *v),
            UnknownFieldData::LengthDelimited(b) => UnknownModel::LengthDelimited(self.number, b@),
            UnknownFieldData::Group(g) => UnknownModel::Group(self.number, unknown_models(g@)),
        }
    }
}

/// Models of a sequence of unknown fields.
pub open spec fn unknown_models(s: Seq<UnknownField>) -> Seq<UnknownModel>
    decreases s,
{
    if s.len() == 0 {
        seq![]
    } else {
        seq![s[0].model()] + unknown_models(s.subrange(1, s.len() as int))
    }
}

pub proof fn lemma_models_len(s: Seq<Value>)
    ensures
        models_of(s).len() == s.len(),
        forall|i: int| 0 <= i < s.len() ==> #[trigger] models_of(s)[i] == s[i].model(),
    decreases s.len(),
{
    if s.len() > 0 {
        let t = s.subrange(1, s.len() as int);
        lemma_models_len(t);
        assert forall|i: int| 0 <= i < s.len() implies #[trigger] models_of(s)[i] == s[i].model() by {
            if i > 0 {
                assert(models_of(s)[i] == models_of(t)[i - 1]);
                assert(t[i - 1] == s[i]);
            }
        }
    }
}

pub proof fn lemma_entry_models_len(s: Seq<(MapKey, Value)>)
    ensures
        entry_models(s).len() == s.len(),
        forall|i: int|
            0 <= i < s.len() ==> #[trigger] entry_models(s)[i] == (s[i].0.model(), s[i].1.model()),
    decreases s.len(),
{
    if s.len() > 0 {
        let t = s.subrange(1, s.len() as int);
        lemma_entry_models_len(t);
        assert forall|i: int| 0 <= i < s.len() implies #[trigger] entry_models(s)[i] == (
        s[i].0.model(), s[i].1.model()) by {
            if i > 0 {
                assert(entry_models(s)[i] == entry_models(t)[i - 1]);
                assert(t[i - 1] == s[i]);
            }
        }
    }
}

pub proof fn lemma_unknown_models_len(s: Seq<UnknownField>)
    ensures
        unknown_models(s).len() == s.len(),
        forall|i: int| 0 <= i < s.len() ==> #[trigger] unknown_models(s)[i] == s[i].model(),
    decreases s.len(),
{
    if s.len() > 0 {
        let t = s.subrange(1, s.len() as int);
        lemma_unknown_models_len(t);
        assert forall|i: int| 0 <= i < s.len() implies #[trigger] unknown_models(s)[i]
            == s[i].model() by {
            if i > 0 {
                assert(unknown_models(s)[i] == unknown_models(t)[i - 1]);
                assert(t[i - 1] == s[i]);
            }
        }
    }
}

/// Two sequences with equal elementwise models have equal models.
pub proof fn lemma_models_ext(a: Seq<Value>, b: Seq<Value>)
    requires
        a.len() == b.len(),
        forall|i: int| 0 <= i < a.len() ==> #[trigger] a[i].model() == b[i].model(),
    ensures
        models_of(a) == models_of(b),
{
    lemma_models_len(a);
    lemma_models_len(b);
    assert(models_of(a) =~= models_of(b));
}

pub proof fn lemma_entry_models_ext(a: Seq<(MapKey, Value)>, b: Seq<(MapKey, Value)>)
    requires
        a.len() == b.len(),
        forall|i: int|
            0 <= i < a.len() ==> #[trigger] a[i].0.model() == b[i].0.model() && a[i].1.model()
                == b[i].1.model(),
    ensures
        entry_models(a) == entry_models(b),
{
    lemma_entry_models_len(a);
    lemma_entry_models_len(b);
    assert(entry_models(a) =~= entry_models(b));
}

pub proof fn lemma_unknown_models_ext(a: Seq<UnknownField>, b: Seq<UnknownField>)
    requires
        a.len() == b.len(),
        forall|i: int| 0 <= i < a.len() ==> #[trigger] a[i].model() == b[i].model(),
    ensures
        unknown_models(a) == unknown_models(b),
{
    lemma_unknown_models_len(a);
    lemma_unknown_models_len(b);
    assert(unknown_models(a) =~= unknown_models(b));
}

fn copy_bytes(b: &Vec<u8>) -> (r: Vec<u8>)
    ensures
        r@ == b@,
{
    let mut out: Vec<u8> = Vec::new();
    let mut i: usize = 0;
    while i < b.len()
        invariant
            i <= b@.len(),
            out@ == b@.take(i as int),
        decreases b@.len() - i,
    {
        out.push(b[i]);
        i = i + 1;
        assert(out@ =~= b@.take(i as int));
    }
    assert(b@.take(b@.len() as int) =~= b@);
    out
}

impl UnknownField {
    /// A copy of this unknown field.
    pub fn duplicate(&self) -> (r: UnknownField)
        ensures
            r.model() == self.model(),
        decreases self,
    {
        let data = match &self.data {
            UnknownFieldData::Varint(v) => UnknownFieldData::Varint(*v),
            UnknownFieldData::Fixed64(v) => UnknownFieldData::Fixed64(*v),
            UnknownFieldData::Fixed32(v) => UnknownFieldData::Fixed32(*v),
            UnknownFieldData::LengthDelimited(b) => UnknownFieldData::LengthDelimited(copy_bytes(b)),
            UnknownFieldData::Group(g) => {
                let mut out: Vec<UnknownField> = Vec::new();
                let mut i: usize = 0;
                while i < g.len()
                    invariant
                        self.data == UnknownFieldData::Group(*g),
                        i <= g@.len(),
                        out@.len() == i,
                        forall|k: int| 0 <= k < i ==> #[trigger] out@[k].model() == g@[k].model(),
                    decreases g@.len() - i,
                {
                    proof {
                        assert(decreases_to!(*self => self.data));
                        assert(decreases_to!(self.data => self.data->Group_0));
                        assert(self.data->Group_0 == *g);
                        assert(decreases_to!(*g => g@));
                        assert(decreases_to!(g@ => g@[i as int]));
                        assert(decreases_to!(self => g@[i as int]));
                    }
                    out.push(g[i].duplicate());
                    i = i + 1;
                }
                proof {
                    lemma_unknown_models_ext(out@, g@);
                }
                UnknownFieldData::Group(out)
            },
        };
        UnknownField { number: self.number, data }
    }
}

impl UnknownFieldSet {
    pub open spec fn model(&self) -> Seq<UnknownModel> {
        unknown_models(self.items@)
    }

    /// An empty set.
    pub fn new() -> (r: UnknownFieldSet)
        ensures
            r.model() == Seq::<UnknownModel>::empty(),
    {
        UnknownFieldSet { items: Vec::new() }
    }

    /// True iff no unknown field was recorded.
    pub fn is_empty(&self) -> (r: bool)
        ensures
            r == (self.model().len() == 0),
    {
        proof {
            lemma_unknown_models_len(self.items@);
        }
        self.items.len() == 0
    }

    /// Number of recorded entries.
    pub fn len(&self) -> (r: usize)
        ensures
            r == self.model().len(),
    {
        proof {
            lemma_unknown_models_len(self.items@);
        }
        self.items.len()
    }

    /// Append one entry.
    pub fn push(&mut self, field: UnknownField)
        ensures
            final(self).model() == old(self).model().push(field.model()),
    {
        let ghost before = self.items@;
        self.items.push(field);
        proof {
            lemma_unknown_models_len(before);
            lemma_unknown_models_len(self.items@);
            assert(self.model() =~= unknown_models(before).push(field.model()));
        }
    }

    /// Copies of the recorded entries, in arrival order.
    pub fn entries(&self) -> (r: Vec<UnknownField>)
        ensures
            unknown_models(r@) == self.model(),
    {
        let mut out: Vec<UnknownField> = Vec::new();
        let mut i: usize = 0;
        while i < self.items.len()
            invariant
                i <= self.items@.len(),
                out@.len() == i,
                forall|k: int| 0 <= k < i ==> #[trigger] out@[k].model() == self.items@[k].model(),
            decreases self.items@.len() - i,
        {
            out.push(self.items[i].duplicate());
            i = i + 1;
        }
        proof {
            lemma_unknown_models_ext(out@, self.items@);
        }
        out
    }

    /// A copy of this set.
    pub fn duplicate(&self) -> (r: UnknownFieldSet)
        ensures
            r.model() == self.model(),
    {
        UnknownFieldSet { items: self.entries() }
    }
}

} // verus!
