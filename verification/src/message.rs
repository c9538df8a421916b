//! [`DynamicMessage`]: a message whose fields are discovered at run time
//! from a [`MessageDescriptor`].
//!
//! Storage is one slot per field number, in ascending number order. A slot
//! holds either the value of a known field or the unknown fields read for
//! a number the descriptor does not declare.

use vstd::prelude::*;

use crate::defaults::DefaultModel;
use crate::handles::{FieldDescriptor, Kind, MessageDescriptor};
use crate::pool::{Cardinality, DefaultValue, FieldEntry, KindRef, PoolInner};
use crate::value::{
    KeyModel, MapKey, SetFieldError, UnknownField, UnknownFieldSet, UnknownModel, Value,
    ValueModel, entry_models, lemma_entry_models_ext, lemma_entry_models_len, lemma_models_ext,
    lemma_models_len, lemma_unknown_models_len, models_of,
};

verus! {

/// What is stored for one field number.
pub enum Slot {
    Value(Value),
    Unknown(UnknownFieldSet),
}

/// A message typed by a descriptor at run time.
pub struct DynamicMessage {
    pub(crate) desc: MessageDescriptor,
    pub(crate) fields: Vec<(u32, Slot)>,
}

/// Model of a slot.
pub enum SlotModel {
    Value(ValueModel),
    Unknown(Seq<UnknownModel>),
}

/// Model of a message: its type (pool and message index) and its slots in
/// storage order.
pub struct MessageModel {
    pub pool: PoolInner,
    pub index: u32,
    pub slots: Seq<(u32, SlotModel)>,
}

impl Slot {
    pub open spec fn model(&self) -> SlotModel
        decreases self,
    {
        match self {
            Slot::Value(v) => SlotModel::Value(v.model()),
            Slot::Unknown(u) => SlotModel::Unknown(u.model()),
        }
    }
}

/// A handle on the value held in slot `pos`.
fn slot_value_mut(fields: &mut Vec<(u32, Slot)>, pos: usize) -> (r: &mut Value)
    requires
        pos < old(fields)@.len(),
        old(fields)@[pos as int].1 is Value,
    ensures
        *r == old(fields)@[pos as int].1->Value_0,
        final(fields)@ == old(fields)@.update(
            pos as int,
            (old(fields)@[pos as int].0, Slot::Value(*final(r))),
        ),
{
    match &mut fields[pos].1 {
        Slot::Value(v) => v,
        Slot::Unknown(_) => vstd::pervasive::unreached(),
    }
}

/// Models of a sequence of slots.
pub open spec fn slot_models(s: Seq<(u32, Slot)>) -> Seq<(u32, SlotModel)>
    decreases s,
{
    if s.len() == 0 {
        seq![]
    } else {
        seq![(s[0].0, s[0].1.model())] + slot_models(s.subrange(1, s.len() as int))
    }
}

pub proof fn lemma_slot_models_len(s: Seq<(u32, Slot)>)
    ensures
        slot_models(s).len() == s.len(),
        forall|i: int|
            0 <= i < s.len() ==> #[trigger] slot_models(s)[i] == (s[i].0, s[i].1.model()),
    decreases s.len(),
{
    if s.len() > 0 {
        let t = s.subrange(1, s.len() as int);
        lemma_slot_models_len(t);
        assert forall|i: int| 0 <= i < s.len() implies #[trigger] slot_models(s)[i] == (
        s[i].0, s[i].1.model()) by {
            if i > 0 {
                assert(slot_models(s)[i] == slot_models(t)[i - 1]);
                assert(t[i - 1] == s[i]);
            }
        }
    }
}

pub proof fn lemma_slot_models_ext(a: Seq<(u32, Slot)>, b: Seq<(u32, Slot)>)
    requires
        a.len() == b.len(),
        forall|i: int|
            0 <= i < a.len() ==> #[trigger] a[i].0 == b[i].0 && a[i].1.model() == b[i].1.model(),
    ensures
        slot_models(a) == slot_models(b),
{
    lemma_slot_models_len(a);
    lemma_slot_models_len(b);
    assert(slot_models(a) =~= slot_models(b));
}

impl DynamicMessage {
    pub closed spec fn model(&self) -> MessageModel
        decreases self,
    {
        MessageModel {
            pool: self.desc.pool_view(),
            index: self.desc.index(),
            slots: slot_models(self.fields@),
        }
    }

    pub(crate) proof fn lemma_model(&self)
        ensures
            self.model() == (MessageModel {
                pool: self.desc.pool_view(),
                index: self.desc.index(),
                slots: slot_models(self.fields@),
            }),
    {
    }
}

impl Value {
    /// A copy of this value.
    pub fn duplicate(&self) -> (r: Value)
        ensures
            r.model() == self.model(),
        decreases self,
    {
        match self {
            Value::Bool(b) => Value::Bool(*b),
            Value::I32(v) => Value::I32(*v),
            Value::I64(v) => Value::I64(*v),
            Value::U32(v) => Value::U32(*v),
            Value::U64(v) => Value::U64(*v),
            Value::F32(v) => Value::F32(*v),
            Value::F64(v) => Value::F64(*v),
            Value::String(s) => Value::String(s.clone()),
            Value::Bytes(b) => {
                let mut out: Vec<u8> = Vec::new();
                let mut i: usize = 0;
                while i < b.len()
                    invariant
                        i <= b@.len(),
                        out@ == b@.take(i as int),
                    decreases b@.len() - i,
                {
                    out.push(b[i]);
                    i = i + 1;
                    assert(out@ =~= b@.take(i as int));
                }
                assert(b@.take(b@.len() as int) =~= b@);
                Value::Bytes(out)
            },
            Value::EnumNumber(n) => Value::EnumNumber(*n),
            Value::Message(m) => Value::Message(m.duplicate()),
            Value::List(items) => {
                let mut out: Vec<Value> = Vec::new();
                let mut i: usize = 0;
                while i < items.len()
                    invariant
                        *self == Value::List(*items),
                        i <= items@.len(),
                        out@.len() == i,
                        forall|k: int| 0 <= k < i ==> #[trigger] out@[k].model() == items@[k].model(),
                    decreases items@.len() - i,
                {
                    proof {
                        assert(decreases_to!(*self => self->List_0));
                        assert(self->List_0 == *items);
                        assert(decreases_to!(*items => items@));
                        assert(decreases_to!(items@ => items@[i as int]));
                        assert(decreases_to!(self => items@[i as int]));
                    }
                    out.push(items[i].duplicate());
                    i = i + 1;
                }
                proof {
                    lemma_models_ext(out@, items@);
                }
                Value::List(out)
            },
            Value::Mapping(entries) => {
                let mut out: Vec<(crate::value::MapKey, Value)> = Vec::new();
                let mut i: usize = 0;
                while i < entries.len()
                    invariant
                        *self == Value::Mapping(*entries),
                        i <= entries@.len(),
                        out@.len() == i,
                        forall|k: int|
                            0 <= k < i ==> #[trigger] out@[k].0.model() == entries@[k].0.model()
                                && out@[k].1.model() == entries@[k].1.model(),
                    decreases entries@.len() - i,
                {
                    proof {
                        assert(decreases_to!(*self => self->Mapping_0));
                        assert(self->Mapping_0 == *entries);
                        assert(decreases_to!(*entries => entries@));
                        assert(decreases_to!(entries@ => entries@[i as int]));
                        assert(decreases_to!(entries@[i as int] => entries@[i as int].1));
                        assert(decreases_to!(self => entries@[i as int].1));
                    }
                    let k = entries[i].0.duplicate();
                    let v = entries[i].1.duplicate();
                    out.push((k, v));
                    i = i + 1;
                }
                proof {
                    lemma_entry_models_ext(out@, entries@);
                }
                Value::Mapping(out)
            },
        }
    }
}

impl DynamicMessage {
    /// A copy of this message.
    pub fn duplicate(&self) -> (r: DynamicMessage)
        ensures
            r.model() == self.model(),
        decreases self,
    {
        let mut out: Vec<(u32, Slot)> = Vec::new();
        let mut i: usize = 0;
        while i < self.fields.len()
            invariant
                i <= self.fields@.len(),
                out@.len() == i,
                forall|k: int|
                    0 <= k < i ==> #[trigger] out@[k].0 == self.fields@[k].0 && out@[k].1.model()
                        == self.fields@[k].1.model(),
            decreases self.fields@.len() - i,
        {
            let slot = match &self.fields[i].1 {
                Slot::Value(v) => {
                    proof {
                        assert(decreases_to!(self => self.fields@[i as int].1));
                    }
                    Slot::Value(v.duplicate())
                },
                Slot::Unknown(u) => Slot::Unknown(u.duplicate()),
            };
            out.push((self.fields[i].0, slot));
            i = i + 1;
        }
        proof {
            lemma_slot_models_ext(out@, self.fields@);
        }
        DynamicMessage { desc: self.desc.clone_handle(), fields: out }
    }
}


// ── slot tables ─────────────────────────────────────────────────────────

/// The slot stored for field number `n` (the first, and with sorted
/// numbers the only, one).
pub open spec fn slot_get(s: Seq<(u32, SlotModel)>, n: u32) -> Option<SlotModel>
    decreases s.len(),
{
    if s.len() == 0 {
        None
    } else if s[0].0 == n {
        Some(s[0].1)
    } else {
        slot_get(s.drop_first(), n)
    }
}

/// Field numbers strictly ascend.
pub open spec fn numbers_sorted(s: Seq<(u32, SlotModel)>) -> bool {
    forall|i: int, j: int| 0 <= i < j < s.len() ==> #[trigger] s[i].0 < #[trigger] s[j].0
}

pub proof fn lemma_slot_get_index(s: Seq<(u32, SlotModel)>, n: u32)
    requires
        numbers_sorted(s),
    ensures
        forall|i: int| 0 <= i < s.len() && #[trigger] s[i].0 == n ==> slot_get(s, n) == Some(s[i].1),
        (forall|i: int| 0 <= i < s.len() ==> #[trigger] s[i].0 != n) ==> slot_get(s, n) is None,
    decreases s.len(),
{
    if s.len() > 0 {
        let t = s.drop_first();
        assert(numbers_sorted(t)) by {
            assert forall|i: int, j: int| 0 <= i < j < t.len() implies #[trigger] t[i].0 < #[trigger] t[j].0 by {
                assert(t[i] == s[i + 1] && t[j] == s[j + 1]);
            }
        }
        lemma_slot_get_index(t, n);
        assert forall|i: int| 0 <= i < s.len() && #[trigger] s[i].0 == n implies slot_get(s, n) == Some(
            s[i].1,
        ) by {
            if i > 0 {
                assert(s[0].0 < s[i].0);
                assert(t[i - 1] == s[i]);
            }
        }
        if forall|i: int| 0 <= i < s.len() ==> #[trigger] s[i].0 != n {
            assert(s[0].0 != n);
            assert forall|i: int| 0 <= i < t.len() implies #[trigger] t[i].0 != n by {
                assert(t[i] == s[i + 1]);
            }
        }
    }
}

/// The slot table as a map from field number to slot.
pub open spec fn slot_view(s: Seq<(u32, SlotModel)>) -> Map<u32, SlotModel> {
    Map::new(|n: u32| slot_get(s, n) is Some, |n: u32| slot_get(s, n)->0)
}

/// The table, sorted by field number, whose map is `mp`.
pub open spec fn sorted_slots(mp: Map<u32, SlotModel>) -> Seq<(u32, SlotModel)> {
    choose|s: Seq<(u32, SlotModel)>| numbers_sorted(s) && slot_view(s) == mp
}

pub proof fn lemma_view_get(a: Seq<(u32, SlotModel)>, b: Seq<(u32, SlotModel)>, m: u32)
    requires
        slot_view(a) == slot_view(b),
    ensures
        slot_get(a, m) == slot_get(b, m),
{
    assert(slot_view(a).dom().contains(m) == (slot_get(a, m) is Some));
    assert(slot_view(b).dom().contains(m) == (slot_get(b, m) is Some));
    if slot_get(a, m) is Some {
        assert(slot_view(a)[m] == slot_get(a, m)->0);
        assert(slot_view(b)[m] == slot_get(b, m)->0);
    }
}

pub proof fn lemma_view_from_get(a: Seq<(u32, SlotModel)>, b: Seq<(u32, SlotModel)>)
    requires
        forall|m: u32| #[trigger] slot_get(a, m) == slot_get(b, m),
    ensures
        slot_view(a) == slot_view(b),
{
    assert(slot_view(a) =~= slot_view(b));
}

proof fn lemma_sorted_tail(s: Seq<(u32, SlotModel)>)
    requires
        numbers_sorted(s),
        s.len() > 0,
    ensures
        numbers_sorted(s.drop_first()),
        forall|m: u32| #[trigger] slot_get(s.drop_first(), m) == (if m == s[0].0 {
            None
        } else {
            slot_get(s, m)
        }),
{
    let t = s.drop_first();
    assert forall|i: int, j: int| 0 <= i < j < t.len() implies #[trigger] t[i].0 < #[trigger] t[j].0 by {
        assert(t[i] == s[i + 1] && t[j] == s[j + 1]);
    }
    assert forall|m: u32| #[trigger] slot_get(t, m) == (if m == s[0].0 {
        None
    } else {
        slot_get(s, m)
    }) by {
        if m == s[0].0 {
            lemma_slot_get_index(t, m);
            assert forall|i: int| 0 <= i < t.len() implies #[trigger] t[i].0 != m by {
                assert(t[i] == s[i + 1]);
            }
        }
    }
}

/// Two tables sorted by field number that hold the same slots are equal.
pub proof fn lemma_sorted_unique(a: Seq<(u32, SlotModel)>, b: Seq<(u32, SlotModel)>)
    requires
        numbers_sorted(a),
        numbers_sorted(b),
        slot_view(a) == slot_view(b),
    ensures
        a == b,
    decreases a.len() + b.len(),
{
    if a.len() == 0 || b.len() == 0 {
        if a.len() > 0 {
            lemma_slot_get_index(a, a[0].0);
            lemma_view_get(a, b, a[0].0);
        }
        if b.len() > 0 {
            lemma_slot_get_index(b, b[0].0);
            lemma_view_get(a, b, b[0].0);
        }
        assert(a =~= b);
    } else {
        let x = a[0].0;
        let y = b[0].0;
        lemma_slot_get_index(a, x);
        lemma_slot_get_index(b, x);
        lemma_slot_get_index(a, y);
        lemma_slot_get_index(b, y);
        lemma_view_get(a, b, x);
        lemma_view_get(a, b, y);
        assert(x == y) by {
            if x < y {
                assert forall|i: int| 0 <= i < b.len() implies #[trigger] b[i].0 != x by {
                    if i > 0 {
                        assert(b[0].0 < b[i].0);
                    }
                }
            } else if y < x {
                assert forall|i: int| 0 <= i < a.len() implies #[trigger] a[i].0 != y by {
                    if i > 0 {
                        assert(a[0].0 < a[i].0);
                    }
                }
            }
        }
        let ta = a.drop_first();
        let tb = b.drop_first();
        lemma_sorted_tail(a);
        lemma_sorted_tail(b);
        assert forall|m: u32| #[trigger] slot_get(ta, m) == slot_get(tb, m) by {
            lemma_view_get(a, b, m);
        }
        lemma_view_from_get(ta, tb);
        lemma_sorted_unique(ta, tb);
        assert(a =~= b) by {
            assert(a == seq![a[0]] + ta);
            assert(b == seq![b[0]] + tb);
        }
    }
}

/// A sorted table is the sorted table of its own map.
pub proof fn lemma_sorted_slots(s: Seq<(u32, SlotModel)>)
    requires
        numbers_sorted(s),
    ensures
        sorted_slots(slot_view(s)) == s,
{
    let t = sorted_slots(slot_view(s));
    assert(numbers_sorted(s) && slot_view(s) == slot_view(s));
    assert(numbers_sorted(t) && slot_view(t) == slot_view(s));
    lemma_sorted_unique(t, s);
}

/// The map after setting field `f` to `v`: `f`'s number holds the value,
/// the other members of its oneof are gone.
pub open spec fn set_map(pool: PoolInner, msg: u32, f: FieldEntry, mp: Map<u32, SlotModel>, v: ValueModel) -> Map<
    u32,
    SlotModel,
> {
    Map::new(
        |m: u32| m == f.number || (mp.contains_key(m) && !is_sibling(pool, msg, f, m)),
        |m: u32| if m == f.number {
            SlotModel::Value(v)
        } else {
            mp[m]
        },
    )
}

pub proof fn lemma_set_view(
    pool: PoolInner,
    msg: u32,
    f: FieldEntry,
    before: Seq<(u32, SlotModel)>,
    after: Seq<(u32, SlotModel)>,
    v: ValueModel,
)
    requires
        set_effect(pool, msg, f, before, after, Some(v)),
    ensures
        slot_view(after) == set_map(pool, msg, f, slot_view(before), v),
{
    let a = slot_view(after);
    let e = set_map(pool, msg, f, slot_view(before), v);
    assert forall|m: u32| #[trigger] a.contains_key(m) == e.contains_key(m) && (a.contains_key(m) ==> a[m] == e[m]) by {
        if m != f.number {
            assert(slot_get(after, m) == (if is_sibling(pool, msg, f, m) {
                None
            } else {
                slot_get(before, m)
            }));
        }
    }
    assert(a =~= e);
}

/// The map with a stored value for `f`: as it is when one is stored,
/// else with `empty` set for it.
pub open spec fn ready(pool: PoolInner, msg: u32, f: FieldEntry, mp: Map<u32, SlotModel>, empty: ValueModel) -> Map<
    u32,
    SlotModel,
> {
    if mp.contains_key(f.number) && mp[f.number] is Value {
        mp
    } else {
        set_map(pool, msg, f, mp, empty)
    }
}

/// What is stored under `n`, if anything.
pub open spec fn stored_slot(mp: Map<u32, SlotModel>, n: u32) -> Option<SlotModel> {
    if mp.contains_key(n) {
        Some(mp[n])
    } else {
        None
    }
}

/// The map after appending `v` to the list stored under `n` (unchanged
/// when no list is stored there).
pub open spec fn push_item_map(mp: Map<u32, SlotModel>, n: u32, v: ValueModel) -> Map<u32, SlotModel> {
    match stored_slot(mp, n) {
        Some(SlotModel::Value(ValueModel::List(items))) => mp.insert(
            n,
            SlotModel::Value(ValueModel::List(items.push(v))),
        ),
        _ => mp,
    }
}

/// Index of the first entry keyed `k`, or -1.
pub open spec fn key_index(es: Seq<(KeyModel, ValueModel)>, k: KeyModel) -> int
    decreases es.len(),
{
    if es.len() == 0 {
        -1
    } else if es[0].0 == k {
        0
    } else {
        let r = key_index(es.drop_first(), k);
        if r < 0 {
            -1
        } else {
            r + 1
        }
    }
}

pub proof fn lemma_key_index(es: Seq<(KeyModel, ValueModel)>, k: KeyModel, i: int)
    requires
        0 <= i <= es.len(),
        forall|j: int| 0 <= j < i ==> #[trigger] es[j].0 != k,
        i < es.len() ==> es[i].0 == k,
    ensures
        key_index(es, k) == (if i < es.len() {
            i
        } else {
            -1
        }),
    decreases i,
{
    if es.len() > 0 && i > 0 {
        let t = es.drop_first();
        assert forall|j: int| 0 <= j < i - 1 implies #[trigger] t[j].0 != k by {
            assert(t[j] == es[j + 1]);
        }
        assert(es[0].0 != k);
        if i < es.len() {
            assert(t[i - 1] == es[i]);
        }
        lemma_key_index(t, k, i - 1);
    }
}

/// Entries after putting `k => v`: an entry keyed `k` is replaced in
/// place, else the pair is appended.
pub open spec fn entries_put(es: Seq<(KeyModel, ValueModel)>, k: KeyModel, v: ValueModel) -> Seq<
    (KeyModel, ValueModel),
> {
    let i = key_index(es, k);
    if i >= 0 {
        es.update(i, (k, v))
    } else {
        es.push((k, v))
    }
}

/// The map after putting `k => v` into map field `f` (a map is stored
/// for it first when none is).
pub open spec fn insert_entry_map(
    pool: PoolInner,
    msg: u32,
    f: FieldEntry,
    mp: Map<u32, SlotModel>,
    k: KeyModel,
    v: ValueModel,
) -> Map<u32, SlotModel> {
    let mp1 = ready(pool, msg, f, mp, ValueModel::Mapping(seq![]));
    match stored_slot(mp1, f.number) {
        Some(SlotModel::Value(ValueModel::Mapping(es))) => mp1.insert(
            f.number,
            SlotModel::Value(ValueModel::Mapping(entries_put(es, k, v))),
        ),
        _ => mp1,
    }
}

/// The map after recording unknown field `u` under `n`.
pub open spec fn add_unknown_map(mp: Map<u32, SlotModel>, n: u32, u: UnknownModel) -> Map<
    u32,
    SlotModel,
> {
    mp.insert(
        n,
        match stored_slot(mp, n) {
            Some(SlotModel::Unknown(us)) => SlotModel::Unknown(us.push(u)),
            _ => SlotModel::Unknown(seq![u]),
        },
    )
}

/// Position of field number `n` in `fields`, or where it would be inserted.
fn locate(fields: &Vec<(u32, Slot)>, n: u32) -> (r: (usize, bool))
    requires
        numbers_sorted(slot_models(fields@)),
    ensures
        r.0 <= fields@.len(),
        forall|i: int| 0 <= i < r.0 ==> #[trigger] fields@[i].0 < n,
        r.1 ==> r.0 < fields@.len() && fields@[r.0 as int].0 == n,
        !r.1 ==> forall|i: int| r.0 <= i < fields@.len() ==> #[trigger] fields@[i].0 > n,
{
    proof {
        lemma_slot_models_len(fields@);
    }
    let mut i: usize = 0;
    while i < fields.len()
        invariant
            i <= fields@.len(),
            numbers_sorted(slot_models(fields@)),
            slot_models(fields@).len() == fields@.len(),
            forall|k: int| 0 <= k < fields@.len() ==> #[trigger] slot_models(fields@)[k].0 == fields@[k].0,
            forall|k: int| 0 <= k < i ==> #[trigger] fields@[k].0 < n,
        decreases fields@.len() - i,
    {
        if fields[i].0 == n {
            return (i, true);
        }
        if fields[i].0 > n {
            proof {
                assert forall|k: int| i <= k < fields@.len() implies #[trigger] fields@[k].0 > n by {
                    if k > i {
                        assert(slot_models(fields@)[i as int].0 < slot_models(fields@)[k].0);
                    }
                }
            }
            return (i, false);
        }
        i = i + 1;
    }
    (i, false)
}

/// Store `slot` under number `n`, replacing any slot already there.
fn put_slot(fields: &mut Vec<(u32, Slot)>, n: u32, slot: Slot)
    requires
        numbers_sorted(slot_models(old(fields)@)),
    ensures
        numbers_sorted(slot_models(final(fields)@)),
        slot_get(slot_models(final(fields)@), n) == Some(slot.model()),
        forall|m: u32|
            m != n ==> #[trigger] slot_get(slot_models(final(fields)@), m) == slot_get(
                slot_models(old(fields)@),
                m,
            ),
        slot_view(slot_models(final(fields)@)) == slot_view(slot_models(old(fields)@)).insert(n, slot.model()),
{
    let ghost smodel = slot.model();
    let (pos, found) = locate(fields, n);
    let ghost before = fields@;
    proof {
        lemma_slot_models_len(before);
    }
    if found {
        fields.remove(pos);
    }
    fields.insert(pos, (n, slot));
    proof {
        let after = fields@;
        lemma_slot_models_len(after);
        let bm = slot_models(before);
        let am = slot_models(after);
        if found {
            assert forall|k: int| 0 <= k < after.len() implies #[trigger] after[k] == (if k == pos {
                (n, slot)
            } else {
                before[k]
            }) by {}
        } else {
            assert forall|k: int| 0 <= k < after.len() implies #[trigger] after[k] == (if k < pos {
                before[k]
            } else if k == pos {
                (n, slot)
            } else {
                before[k - 1]
            }) by {}
        }
        assert(numbers_sorted(am)) by {
            assert forall|i: int, j: int| 0 <= i < j < am.len() implies #[trigger] am[i].0 < #[trigger] am[j].0 by {
                assert(am[i].0 == after[i].0 && am[j].0 == after[j].0);
                if found {
                    if i != pos && j != pos {
                        assert(bm[i].0 == before[i].0 && bm[j].0 == before[j].0);
                    } else if i == pos {
                        assert(bm[j].0 == before[j].0);
                        assert(bm[i].0 == before[i].0);
                    } else {
                        assert(bm[i].0 == before[i].0);
                        assert(bm[j].0 == before[j].0);
                    }
                } else {
                    if i < pos && j > pos {
                        assert(bm[i].0 == before[i].0);
                    } else if i < pos && j < pos {
                        assert(bm[i].0 == before[i].0 && bm[j].0 == before[j].0);
                    } else if i > pos && j > pos {
                        assert(bm[i - 1].0 == before[i - 1].0 && bm[j - 1].0 == before[j - 1].0);
                    }
                }
            }
        }
        lemma_slot_get_index(am, n);
        assert(am[pos as int] == (n, smodel));
        assert(am[pos as int].0 == n);
        assert(slot_get(am, n) == Some(am[pos as int].1));
        assert forall|m: u32| m != n implies #[trigger] slot_get(am, m) == slot_get(bm, m) by {
            lemma_slot_get_index(am, m);
            lemma_slot_get_index(bm, m);
            if exists|i: int| 0 <= i < bm.len() && bm[i].0 == m {
                let i = choose|i: int| 0 <= i < bm.len() && bm[i].0 == m;
                if found {
                    assert(i != pos);
                    assert(am[i] == bm[i]);
                } else if i < pos {
                    assert(am[i] == bm[i]);
                } else {
                    assert(am[i + 1] == bm[i]);
                }
            } else {
                assert forall|i: int| 0 <= i < am.len() implies #[trigger] am[i].0 != m by {
                    if i != pos {
                        if found || i < pos {
                            assert(am[i] == bm[i]);
                        } else {
                            assert(am[i] == bm[i - 1]);
                        }
                    }
                }
            }
        }
    }
    proof {
        let a = slot_view(slot_models(fields@));
        let e = slot_view(slot_models(old(fields)@)).insert(n, smodel);
        assert forall|m: u32| #[trigger] a.contains_key(m) == e.contains_key(m) && (a.contains_key(m) ==> a[m] == e[m]) by {
            if m != n {
                assert(slot_get(slot_models(fields@), m) == slot_get(slot_models(old(fields)@), m));
            }
        }
        assert(a =~= e);
    }
}

/// Drop the slot stored under `n`, if any.
fn take_slot(fields: &mut Vec<(u32, Slot)>, n: u32)
    requires
        numbers_sorted(slot_models(old(fields)@)),
    ensures
        numbers_sorted(slot_models(final(fields)@)),
        slot_get(slot_models(final(fields)@), n) is None,
        forall|m: u32|
            m != n ==> #[trigger] slot_get(slot_models(final(fields)@), m) == slot_get(
                slot_models(old(fields)@),
                m,
            ),
{
    let (pos, found) = locate(fields, n);
    let ghost before = fields@;
    proof {
        lemma_slot_models_len(before);
    }
    if found {
        fields.remove(pos);
    }
    proof {
        let after = fields@;
        lemma_slot_models_len(after);
        let bm = slot_models(before);
        let am = slot_models(after);
        if found {
            assert forall|k: int| 0 <= k < after.len() implies #[trigger] after[k] == (if k < pos {
                before[k]
            } else {
                before[k + 1]
            }) by {}
        } else {
            assert(after =~= before);
        }
        assert(numbers_sorted(am)) by {
            assert forall|i: int, j: int| 0 <= i < j < am.len() implies #[trigger] am[i].0 < #[trigger] am[j].0 by {
                assert(am[i].0 == after[i].0 && am[j].0 == after[j].0);
                if found {
                    let bi = if i < pos { i } else { i + 1 };
                    let bj = if j < pos { j } else { j + 1 };
                    assert(bm[bi].0 == before[bi].0 && bm[bj].0 == before[bj].0);
                } else {
                    assert(bm[i].0 == before[i].0 && bm[j].0 == before[j].0);
                }
            }
        }
        lemma_slot_get_index(am, n);
        assert forall|i: int| 0 <= i < am.len() implies #[trigger] am[i].0 != n by {
            if found {
                if i < pos {
                    assert(am[i] == bm[i]);
                    assert(before[i].0 < n);
                } else {
                    assert(am[i] == bm[i + 1]);
                    assert(bm[pos as int].0 < bm[i + 1].0);
                }
            } else {
                assert(am[i] == bm[i]);
            }
        }
        assert forall|m: u32| m != n implies #[trigger] slot_get(am, m) == slot_get(bm, m) by {
            lemma_slot_get_index(am, m);
            lemma_slot_get_index(bm, m);
            if exists|i: int| 0 <= i < bm.len() && bm[i].0 == m {
                let i = choose|i: int| 0 <= i < bm.len() && bm[i].0 == m;
                if found {
                    assert(i != pos);
                    if i < pos {
                        assert(am[i] == bm[i]);
                    } else {
                        assert(am[i - 1] == bm[i]);
                    }
                } else {
                    assert(am[i] == bm[i]);
                }
            } else {
                assert forall|i: int| 0 <= i < am.len() implies #[trigger] am[i].0 != m by {
                    if found && i >= pos {
                        assert(am[i] == bm[i + 1]);
                    } else {
                        assert(am[i] == bm[i]);
                    }
                }
            }
        }
    }
}


// ── typing ──────────────────────────────────────────────────────────────

/// The first field of `fs` numbered `n`.
pub open spec fn entry_by_number(fs: Seq<FieldEntry>, n: u32) -> Option<FieldEntry>
    decreases fs.len(),
{
    if fs.len() == 0 {
        None
    } else if fs[0].number == n {
        Some(fs[0])
    } else {
        entry_by_number(fs.drop_first(), n)
    }
}

pub proof fn lemma_entry_by_number(fs: Seq<FieldEntry>, n: u32)
    ensures
        entry_by_number(fs, n) is Some <==> exists|i: int|
            0 <= i < fs.len() && #[trigger] fs[i].number == n,
        entry_by_number(fs, n) is Some ==> exists|i: int|
            0 <= i < fs.len() && #[trigger] fs[i].number == n && entry_by_number(fs, n) == Some(
                fs[i],
            ) && forall|k: int| 0 <= k < i ==> #[trigger] fs[k].number != n,
    decreases fs.len(),
{
    if fs.len() > 0 {
        let t = fs.drop_first();
        lemma_entry_by_number(t, n);
        if fs[0].number != n {
            if exists|i: int| 0 <= i < fs.len() && #[trigger] fs[i].number == n {
                let i = choose|i: int| 0 <= i < fs.len() && #[trigger] fs[i].number == n;
                assert(t[i - 1] == fs[i]);
            }
            if entry_by_number(fs, n) is Some {
                let j = choose|j: int|
                    0 <= j < t.len() && #[trigger] t[j].number == n && entry_by_number(t, n)
                        == Some(t[j]) && forall|k: int| 0 <= k < j ==> #[trigger] t[k].number != n;
                assert(fs[j + 1] == t[j]);
                assert forall|k: int| 0 <= k < j + 1 implies #[trigger] fs[k].number != n by {
                    if k > 0 {
                        assert(fs[k] == t[k - 1]);
                    }
                }
            }
        } else {
            assert(fs[0].number == n);
        }
    }
}

/// The declared fields of message `msg` of `pool`.
pub open spec fn fields_of(pool: PoolInner, msg: u32) -> Seq<FieldEntry> {
    pool.messages@[msg as int].fields@
}

/// Whether a field's type is a synthesized map-entry message.
pub open spec fn field_is_map(pool: PoolInner, f: FieldEntry) -> bool {
    f.kind matches KindRef::Message(i) && i < pool.messages@.len()
        && pool.messages@[i as int].is_map_entry
}

/// A repeated field that is not a map.
pub open spec fn field_is_list(pool: PoolInner, f: FieldEntry) -> bool {
    f.cardinality == Cardinality::Repeated && !field_is_map(pool, f)
}

/// Key and value kinds of a map field: fields 1 and 2 of its entry type.
pub open spec fn map_kinds(pool: PoolInner, f: FieldEntry) -> Option<(KindRef, KindRef)> {
    match f.kind {
        KindRef::Message(i) => if i < pool.messages@.len() && pool.messages@[i as int].is_map_entry {
            match (entry_by_number(fields_of(pool, i), 1), entry_by_number(fields_of(pool, i), 2)) {
                (Some(k), Some(v)) => Some((k.kind, v.kind)),
                _ => None,
            }
        } else {
            None
        },
        _ => None,
    }
}

/// A single value of kind `k`.
pub open spec fn kind_fits(pool: PoolInner, k: KindRef, v: ValueModel) -> bool {
    match (k, v) {
        (KindRef::Bool, ValueModel::Bool(_)) => true,
        (KindRef::Int32, ValueModel::I32(_)) => true,
        (KindRef::Sint32, ValueModel::I32(_)) => true,
        (KindRef::Sfixed32, ValueModel::I32(_)) => true,
        (KindRef::Int64, ValueModel::I64(_)) => true,
        (KindRef::Sint64, ValueModel::I64(_)) => true,
        (KindRef::Sfixed64, ValueModel::I64(_)) => true,
        (KindRef::Uint32, ValueModel::U32(_)) => true,
        (KindRef::Fixed32, ValueModel::U32(_)) => true,
        (KindRef::Uint64, ValueModel::U64(_)) => true,
        (KindRef::Fixed64, ValueModel::U64(_)) => true,
        (KindRef::Float, ValueModel::F32(_)) => true,
        (KindRef::Double, ValueModel::F64(_)) => true,
        (KindRef::String, ValueModel::Str(_)) => true,
        (KindRef::Bytes, ValueModel::Bytes(_)) => true,
        (KindRef::Enum(_), ValueModel::EnumNumber(_)) => true,
        (KindRef::Message(i), ValueModel::Message(m)) => m.pool == pool && m.index == i,
        _ => false,
    }
}

/// A map key of kind `k`.
pub open spec fn key_fits(k: KindRef, key: KeyModel) -> bool {
    match (k, key) {
        (KindRef::Bool, KeyModel::Bool(_)) => true,
        (KindRef::Int32, KeyModel::I32(_)) => true,
        (KindRef::Sint32, KeyModel::I32(_)) => true,
        (KindRef::Sfixed32, KeyModel::I32(_)) => true,
        (KindRef::Int64, KeyModel::I64(_)) => true,
        (KindRef::Sint64, KeyModel::I64(_)) => true,
        (KindRef::Sfixed64, KeyModel::I64(_)) => true,
        (KindRef::Uint32, KeyModel::U32(_)) => true,
        (KindRef::Fixed32, KeyModel::U32(_)) => true,
        (KindRef::Uint64, KeyModel::U64(_)) => true,
        (KindRef::Fixed64, KeyModel::U64(_)) => true,
        (KindRef::String, KeyModel::Str(_)) => true,
        _ => false,
    }
}

/// Every entry of `es` has a key of kind `kk` and a value of kind `vk`.
pub open spec fn entries_fit(pool: PoolInner, kk: KindRef, vk: KindRef, es: Seq<(KeyModel, ValueModel)>) -> bool {
    forall|i: int| 0 <= i < es.len() ==> key_fits(kk, #[trigger] es[i].0) && kind_fits(pool, vk, es[i].1)
}

/// Every item of `items` is a value of kind `k`.
pub open spec fn items_fit(pool: PoolInner, k: KindRef, items: Seq<ValueModel>) -> bool {
    forall|i: int| 0 <= i < items.len() ==> kind_fits(pool, k, #[trigger] items[i])
}

/// Whether `v` is a valid value for field `f`: a list of the field's kind
/// for a repeated field, a map with keys and values of the entry's kinds
/// for a map field, else a single value of the field's kind.
pub open spec fn value_fits(pool: PoolInner, f: FieldEntry, v: ValueModel) -> bool {
    if field_is_map(pool, f) {
        match (v, map_kinds(pool, f)) {
            (ValueModel::Mapping(es), Some((kk, vk))) => entries_fit(pool, kk, vk, es),
            _ => false,
        }
    } else if field_is_list(pool, f) {
        match v {
            ValueModel::List(items) => items_fit(pool, f.kind, items),
            _ => false,
        }
    } else {
        kind_fits(pool, f.kind, v)
    }
}

/// Whether `m` is a field number of a member of the oneof containing `f`.
pub open spec fn is_sibling(pool: PoolInner, msg: u32, f: FieldEntry, m: u32) -> bool {
    match f.oneof_index {
        Some(o) => {
            let members = pool.messages@[msg as int].oneofs@[o as int].field_indices@;
            exists|k: int|
                0 <= k < members.len() && #[trigger] pool.messages@[msg as int].fields@[members[k] as int].number
                    == m
        },
        None => false,
    }
}

/// The slot table after setting field `f` (number `f.number`) to `v`:
/// the field holds `v`, its oneof siblings are gone, every other number
/// is untouched.
pub open spec fn set_effect(
    pool: PoolInner,
    msg: u32,
    f: FieldEntry,
    before: Seq<(u32, SlotModel)>,
    after: Seq<(u32, SlotModel)>,
    v: Option<ValueModel>,
) -> bool {
    &&& numbers_sorted(after)
    &&& slot_get(after, f.number) == (match v {
        Some(x) => Some(SlotModel::Value(x)),
        None => None,
    })
    &&& forall|m: u32|
        m != f.number ==> #[trigger] slot_get(after, m) == (if is_sibling(pool, msg, f, m) {
            None
        } else {
            slot_get(before, m)
        })
}

/// The zero value of a single field of kind `k`.
pub open spec fn zero_of(pool: PoolInner, k: KindRef) -> ValueModel {
    match k {
        KindRef::Bool => ValueModel::Bool(false),
        KindRef::Int32 | KindRef::Sint32 | KindRef::Sfixed32 => ValueModel::I32(0),
        KindRef::Int64 | KindRef::Sint64 | KindRef::Sfixed64 => ValueModel::I64(0),
        KindRef::Uint32 | KindRef::Fixed32 => ValueModel::U32(0),
        KindRef::Uint64 | KindRef::Fixed64 => ValueModel::U64(0),
        KindRef::Float => ValueModel::F32(0),
        KindRef::Double => ValueModel::F64(0),
        KindRef::String => ValueModel::Str(seq![]),
        KindRef::Bytes => ValueModel::Bytes(seq![]),
        KindRef::Enum(_) => ValueModel::EnumNumber(0),
        KindRef::Message(i) => ValueModel::Message(MessageModel { pool, index: i, slots: seq![] }),
    }
}

/// The value a parsed default literal stands for (floating-point
/// literals give the zero value).
pub open spec fn default_literal(pool: PoolInner, k: KindRef, d: DefaultModel) -> ValueModel {
    match d {
        DefaultModel::Bool(b) => ValueModel::Bool(b),
        DefaultModel::I32(v) => ValueModel::I32(v),
        DefaultModel::I64(v) => ValueModel::I64(v),
        DefaultModel::U32(v) => ValueModel::U32(v),
        DefaultModel::U64(v) => ValueModel::U64(v),
        DefaultModel::FloatLiteral(_) => zero_of(pool, k),
        DefaultModel::String(s) => ValueModel::Str(s),
        DefaultModel::Bytes(b) => ValueModel::Bytes(b),
        DefaultModel::EnumNumber(n) => ValueModel::EnumNumber(n),
    }
}

/// What an unset field reads as.
pub open spec fn default_for(pool: PoolInner, f: FieldEntry) -> ValueModel {
    if field_is_map(pool, f) {
        ValueModel::Mapping(seq![])
    } else if field_is_list(pool, f) {
        ValueModel::List(seq![])
    } else {
        match f.parsed_default {
            Some(d) => default_literal(pool, f.kind, d.model()),
            None => zero_of(pool, f.kind),
        }
    }
}

/// Whether `v` is the zero value of kind `k` (empty lists and maps count
/// whatever the kind).
pub open spec fn is_zero(k: KindRef, v: ValueModel) -> bool {
    match (v, k) {
        (ValueModel::Bool(b), KindRef::Bool) => !b,
        (ValueModel::I32(x), KindRef::Int32) => x == 0,
        (ValueModel::I32(x), KindRef::Sint32) => x == 0,
        (ValueModel::I32(x), KindRef::Sfixed32) => x == 0,
        (ValueModel::I64(x), KindRef::Int64) => x == 0,
        (ValueModel::I64(x), KindRef::Sint64) => x == 0,
        (ValueModel::I64(x), KindRef::Sfixed64) => x == 0,
        (ValueModel::U32(x), KindRef::Uint32) => x == 0,
        (ValueModel::U32(x), KindRef::Fixed32) => x == 0,
        (ValueModel::U64(x), KindRef::Uint64) => x == 0,
        (ValueModel::U64(x), KindRef::Fixed64) => x == 0,
        (ValueModel::F32(bits), KindRef::Float) => bits % 0x8000_0000 == 0,
        (ValueModel::F64(bits), KindRef::Double) => bits % 0x8000_0000_0000_0000 == 0,
        (ValueModel::Str(s), KindRef::String) => s.len() == 0,
        (ValueModel::Bytes(b), KindRef::Bytes) => b.len() == 0,
        (ValueModel::EnumNumber(n), KindRef::Enum(_)) => n == 0,
        (ValueModel::Message(m), KindRef::Message(_)) => m.slots.len() == 0,
        (ValueModel::List(l), _) => l.len() == 0,
        (ValueModel::Mapping(m), _) => m.len() == 0,
        _ => false,
    }
}

// ── values for kinds ────────────────────────────────────────────────────

impl MapKey {
    /// The zero key of a map whose keys are of kind `kind`; only the
    /// integer, `bool` and `string` kinds can key a map.
    pub fn default_value(kind: &Kind) -> (r: MapKey)
        requires
            !(kind is Float || kind is Double || kind is Bytes || kind is Enum || kind is Message),
        ensures
            r.model() == match kind {
                Kind::Bool => KeyModel::Bool(false),
                Kind::Int32 | Kind::Sint32 | Kind::Sfixed32 => KeyModel::I32(0),
                Kind::Int64 | Kind::Sint64 | Kind::Sfixed64 => KeyModel::I64(0),
                Kind::Uint32 | Kind::Fixed32 => KeyModel::U32(0),
                Kind::Uint64 | Kind::Fixed64 => KeyModel::U64(0),
                _ => KeyModel::Str(seq![]),
            },
    {
        match kind {
            Kind::Bool => MapKey::Bool(false),
            Kind::Int32 | Kind::Sint32 | Kind::Sfixed32 => MapKey::I32(0),
            Kind::Int64 | Kind::Sint64 | Kind::Sfixed64 => MapKey::I64(0),
            Kind::Uint32 | Kind::Fixed32 => MapKey::U32(0),
            Kind::Uint64 | Kind::Fixed64 => MapKey::U64(0),
            _ => MapKey::String(String::new()),
        }
    }
}

impl Value {
    /// The zero value of a field of kind `kind`.
    pub fn default_value(kind: &Kind) -> (r: Value)
        ensures
            r.model() == match kind {
                Kind::Bool => ValueModel::Bool(false),
                Kind::Int32 | Kind::Sint32 | Kind::Sfixed32 => ValueModel::I32(0),
                Kind::Int64 | Kind::Sint64 | Kind::Sfixed64 => ValueModel::I64(0),
                Kind::Uint32 | Kind::Fixed32 => ValueModel::U32(0),
                Kind::Uint64 | Kind::Fixed64 => ValueModel::U64(0),
                Kind::Float => ValueModel::F32(0),
                Kind::Double => ValueModel::F64(0),
                Kind::String => ValueModel::Str(seq![]),
                Kind::Bytes => ValueModel::Bytes(seq![]),
                Kind::Enum(_) => ValueModel::EnumNumber(0),
                Kind::Message(d) => zero_of(d.pool_view(), KindRef::Message(d.index())),
            },
            match (kind, r) {
                (Kind::Message(d), Value::Message(m)) => m.model() == zero_of(
                    d.pool_view(),
                    KindRef::Message(d.index()),
                )->Message_0,
                (Kind::Message(_), _) => false,
                _ => true,
            },
    {
        match kind {
            Kind::Bool => Value::Bool(false),
            Kind::Int32 | Kind::Sint32 | Kind::Sfixed32 => Value::I32(0),
            Kind::Int64 | Kind::Sint64 | Kind::Sfixed64 => Value::I64(0),
            Kind::Uint32 | Kind::Fixed32 => Value::U32(0),
            Kind::Uint64 | Kind::Fixed64 => Value::U64(0),
            Kind::Float => Value::F32(0),
            Kind::Double => Value::F64(0),
            Kind::String => Value::String(String::new()),
            Kind::Bytes => Value::Bytes(Vec::new()),
            Kind::Enum(_) => Value::EnumNumber(0),
            Kind::Message(d) => Value::Message(DynamicMessage::new(d.clone_handle())),
        }
    }
}

/// The zero value of kind `k` in `pool`.
pub(crate) fn zero_value_pub(desc: &MessageDescriptor, k: KindRef) -> (r: Value)
    requires
        crate::pool::kind_ok(k, desc.pool_view().messages@.len(), desc.pool_view().enums@.len()),
    ensures
        r.model() == zero_of(desc.pool_view(), k),
{
    zero_value(desc, k)
}

fn zero_value(desc: &MessageDescriptor, k: KindRef) -> (r: Value)
    requires
        crate::pool::kind_ok(k, desc.pool_view().messages@.len(), desc.pool_view().enums@.len()),
    ensures
        r.model() == zero_of(desc.pool_view(), k),
{
    match k {
        KindRef::Bool => Value::Bool(false),
        KindRef::Int32 | KindRef::Sint32 | KindRef::Sfixed32 => Value::I32(0),
        KindRef::Int64 | KindRef::Sint64 | KindRef::Sfixed64 => Value::I64(0),
        KindRef::Uint32 | KindRef::Fixed32 => Value::U32(0),
        KindRef::Uint64 | KindRef::Fixed64 => Value::U64(0),
        KindRef::Float => Value::F32(0),
        KindRef::Double => Value::F64(0),
        KindRef::String => Value::String(String::new()),
        KindRef::Bytes => Value::Bytes(Vec::new()),
        KindRef::Enum(_) => Value::EnumNumber(0),
        KindRef::Message(i) => {
            let d = MessageDescriptor::new(desc.pool_ref().clone_handle(), i);
            let m = DynamicMessage::new(d);
            proof {
                m.lemma_model();
                assert(slot_models(m.fields@) =~= seq![]);
            }
            Value::Message(m)
        },
    }
}

fn copy_bytes(b: &Vec<u8>) -> (r: Vec<u8>)
    ensures
        r@ == b@,
{
    let mut out: Vec<u8> = Vec::new();
    let mut i: usize = 0;
    while i < b.len()
        invariant
            i <= b@.len(),
            out@ == b@.take(i as int),
        decreases b@.len() - i,
    {
        out.push(b[i]);
        i = i + 1;
        assert(out@ =~= b@.take(i as int));
    }
    assert(b@.take(b@.len() as int) =~= b@);
    out
}

/// Whether the field is a map field (its type is a map-entry message).
fn is_map_field(f: &FieldDescriptor) -> (r: bool)
    ensures
        r == field_is_map(f.pool_view(), f.entry()),
{
    let _k = f.kind_ref();
    f.is_map()
}

impl Value {
    /// What an unset field reads as: an empty list or map for repeated
    /// fields, else the declared default, else the zero value.
    pub fn default_value_for_field(field: &FieldDescriptor) -> (r: Value)
        ensures
            r.model() == default_for(field.pool_view(), field.entry()),
    {
        let k = field.kind_ref();
        if is_map_field(field) {
            let r = Value::Mapping(Vec::new());
            proof {
                assert(entry_models(Seq::<(MapKey, Value)>::empty()) =~= seq![]);
            }
            return r;
        }
        if field.cardinality() == Cardinality::Repeated {
            let r = Value::List(Vec::new());
            proof {
                assert(models_of(Seq::<Value>::empty()) =~= seq![]);
            }
            return r;
        }
        let desc = field.parent_message();
        match field.default_value() {
            Some(d) => match d {
                DefaultValue::Bool(b) => Value::Bool(*b),
                DefaultValue::I32(v) => Value::I32(*v),
                DefaultValue::I64(v) => Value::I64(*v),
                DefaultValue::U32(v) => Value::U32(*v),
                DefaultValue::U64(v) => Value::U64(*v),
                DefaultValue::FloatLiteral(_) => zero_value(&desc, k),
                DefaultValue::String(s) => Value::String(s.clone()),
                DefaultValue::Bytes(b) => Value::Bytes(copy_bytes(b)),
                DefaultValue::EnumNumber(n) => Value::EnumNumber(*n),
            },
            None => zero_value(&desc, k),
        }
    }
}


// ── the message API ─────────────────────────────────────────────────────

/// `field` is a field of the message type `m` describes.
pub open spec fn belongs(m: MessageModel, field: &FieldDescriptor) -> bool {
    field.pool_view() == m.pool && field.message() == m.index
}

impl DynamicMessage {
    /// Well-formed storage: field numbers strictly ascend.
    pub open spec fn wf(&self) -> bool {
        numbers_sorted(self.model().slots)
    }

    /// An empty message of type `desc`.
    pub fn new(desc: MessageDescriptor) -> (r: DynamicMessage)
        ensures
            r.model() == (MessageModel {
                pool: desc.pool_view(),
                index: desc.index(),
                slots: seq![],
            }),
            r.wf(),
    {
        let r = DynamicMessage { desc, fields: Vec::new() };
        proof {
            r.lemma_model();
            assert(slot_models(r.fields@) =~= seq![]);
        }
        r
    }

    /// The message's type.
    pub fn descriptor(&self) -> (r: MessageDescriptor)
        ensures
            r.pool_view() == self.model().pool,
            r.index() == self.model().index,
    {
        proof {
            self.lemma_model();
        }
        self.desc.clone_handle()
    }

    /// The pool the message's type comes from.
    pub fn parent_pool(&self) -> (r: crate::pool::DescriptorPool)
        ensures
            r.view_inner() == self.model().pool,
    {
        proof {
            self.lemma_model();
        }
        self.desc.pool_ref().clone_handle()
    }

    /// True iff nothing is stored: no field set and no unknown field kept.
    pub fn is_empty(&self) -> (r: bool)
        ensures
            r == (self.model().slots.len() == 0),
    {
        proof {
            self.lemma_model();
            lemma_slot_models_len(self.fields@);
        }
        self.fields.len() == 0
    }

    fn value_at(&self, n: u32) -> (r: Option<&Value>)
        requires
            self.wf(),
        ensures
            match slot_get(self.model().slots, n) {
                Some(SlotModel::Value(v)) => r is Some && r->0.model() == v,
                _ => r is None,
            },
    {
        proof {
            self.lemma_model();
            lemma_slot_models_len(self.fields@);
            lemma_slot_get_index(self.model().slots, n);
        }
        let (pos, found) = locate(&self.fields, n);
        proof {
            if !found {
                assert forall|i: int| 0 <= i < self.model().slots.len() implies #[trigger] self.model().slots[i].0 != n by {
                    assert(self.model().slots[i].0 == self.fields@[i].0);
                }
            } else {
                assert(self.model().slots[pos as int].0 == n);
            }
        }
        if found {
            match &self.fields[pos].1 {
                Slot::Value(v) => Some(v),
                Slot::Unknown(_) => None,
            }
        } else {
            None
        }
    }

    /// True iff a value is stored for the field and, when the field does
    /// not track presence, that value is not the zero value.
    pub fn has_field(&self, field: &FieldDescriptor) -> (r: bool)
        requires
            self.wf(),
        ensures
            r == (match slot_get(self.model().slots, field.entry().number) {
                Some(SlotModel::Value(v)) => field.entry().supports_presence || !is_zero(
                    field.entry().kind,
                    v,
                ),
                _ => false,
            }),
    {
        match self.value_at(field.number()) {
            Some(v) => field.supports_presence() || !is_zero_value(field.kind_ref(), v),
            None => false,
        }
    }

    /// The field's value: a copy of what is stored, else what an unset
    /// field reads as.
    pub fn get_field(&self, field: &FieldDescriptor) -> (r: Value)
        requires
            self.wf(),
        ensures
            r.model() == (match slot_get(self.model().slots, field.entry().number) {
                Some(SlotModel::Value(v)) => v,
                _ => default_for(field.pool_view(), field.entry()),
            }),
    {
        match self.value_at(field.number()) {
            Some(v) => v.duplicate(),
            None => Value::default_value_for_field(field),
        }
    }

    /// A handle on the stored value of `field`, to change it in place.
    /// Where the field holds no value its default is stored first; the
    /// other members of its oneof are cleared either way. What is written
    /// through the handle is what the field then holds.
    pub fn get_field_mut(&mut self, field: &FieldDescriptor) -> (r: &mut Value)
        requires
            old(self).wf(),
        ensures
            (*r).model() == match slot_get(old(self).model().slots, field.entry().number) {
                Some(SlotModel::Value(v)) => v,
                _ => default_for(field.pool_view(), field.entry()),
            },
            final(self).wf(),
            final(self).model().pool == old(self).model().pool,
            final(self).model().index == old(self).model().index,
            set_effect(
                field.pool_view(),
                field.message(),
                field.entry(),
                old(self).model().slots,
                final(self).model().slots,
                Some((*final(r)).model()),
            ),
    {
        let n = field.number();
        let absent = self.value_at(n).is_none();
        let ghost want = match slot_get(old(self).model().slots, field.entry().number) {
            Some(SlotModel::Value(v)) => v,
            _ => default_for(field.pool_view(), field.entry()),
        };
        self.clear_siblings(field);
        let ghost cleared = self.model().slots;
        if absent {
            let d = Value::default_value_for_field(field);
            put_slot(&mut self.fields, n, Slot::Value(d));
            proof {
                self.lemma_model();
            }
        }
        assert(slot_get(self.model().slots, n) == Some(SlotModel::Value(want)));
        proof {
            self.lemma_model();
            lemma_slot_models_len(self.fields@);
            lemma_slot_get_index(self.model().slots, n);
        }
        let (pos, found) = locate(&self.fields, n);
        proof {
            if !found {
                assert forall|i: int| 0 <= i < self.model().slots.len() implies #[trigger] self.model().slots[i].0 != n by {
                    assert(self.model().slots[i].0 == self.fields@[i].0);
                }
            }
            assert(self.model().slots[pos as int] == (n, self.fields@[pos as int].1.model()));
            assert(slot_get(self.model().slots, n) matches Some(SlotModel::Value(_)));
            assert(found);
            lemma_slot_get_index(self.model().slots, n);
            assert(self.model().slots[pos as int].0 == n);
            assert(self.model().slots[pos as int].1 == SlotModel::Value(want));
            assert forall|m: u32| m != n implies #[trigger] slot_get(self.model().slots, m) == slot_get(cleared, m) by {}
            match self.fields@[pos as int].1 {
                Slot::Value(v) => {
                    assert(v.model() == want);
                },
                Slot::Unknown(_) => {
                    assert(self.fields@[pos as int].1.model() is Unknown);
                },
            }
            assert(self.fields@[pos as int].1 is Value);
        }
        let ghost mid = self.fields@;
        let r = slot_value_mut(&mut self.fields, pos);
        proof {
            let after = mid.update(pos as int, (n, Slot::Value(*final(r))));
            lemma_slot_models_len(mid);
            lemma_slot_models_len(after);
            let sm = slot_models(mid);
            let am = slot_models(after);
            assert(am =~= sm.update(pos as int, (n, SlotModel::Value((*final(r)).model()))));
            assert(numbers_sorted(sm));
            assert forall|i: int, j: int| 0 <= i < j < am.len() implies #[trigger] am[i].0 < #[trigger] am[j].0 by {
                assert(am[i].0 == sm[i].0 && am[j].0 == sm[j].0);
            }
            assert(numbers_sorted(am));
            lemma_slot_get_index(am, n);
            assert forall|m: u32| m != n implies #[trigger] slot_get(am, m) == slot_get(sm, m) by {
                lemma_slot_get_index(am, m);
                lemma_slot_get_index(sm, m);
                if exists|i: int| 0 <= i < sm.len() && #[trigger] sm[i].0 == m {
                    let i = choose|i: int| 0 <= i < sm.len() && #[trigger] sm[i].0 == m;
                    assert(am[i].0 == m);
                } else {
                    assert forall|i: int| 0 <= i < am.len() implies #[trigger] am[i].0 != m by {
                        assert(am[i].0 == sm[i].0);
                    }
                }
            }
            assert(am[pos as int] == (n, SlotModel::Value((*final(r)).model())));
            assert(am[pos as int].0 == n);
            lemma_slot_get_index(am, n);
            assert(slot_get(am, n) == Some(SlotModel::Value((*final(r)).model())));
        }
        r
    }

    fn clear_siblings(&mut self, field: &FieldDescriptor)
        requires
            old(self).wf(),
        ensures
            final(self).wf(),
            final(self).model().pool == old(self).model().pool,
            final(self).model().index == old(self).model().index,
            slot_get(final(self).model().slots, field.entry().number) == slot_get(
                old(self).model().slots,
                field.entry().number,
            ),
            forall|m: u32|
                m != field.entry().number ==> #[trigger] slot_get(final(self).model().slots, m)
                    == (if is_sibling(
                    field.pool_view(),
                    field.message(),
                    field.entry(),
                    m,
                ) {
                    None
                } else {
                    slot_get(old(self).model().slots, m)
                }),
    {
        proof {
            self.lemma_model();
        }
        let ghost pool = field.pool_view();
        let ghost msg = field.message();
        let ghost fe = field.entry();
        let ghost before = old(self).model().slots;
        let own = field.number();
        match field.containing_oneof() {
            None => {},
            Some(oneof) => {
                let members = oneof.fields();
                let ghost idx = oneof.entry().field_indices@;
                let mut j: usize = 0;
                while j < members.len()
                    invariant
                        j <= members@.len(),
                        members@.len() == idx.len(),
                        forall|k: int|
                            0 <= k < members@.len() ==> (#[trigger] members@[k]).entry()
                                == pool.messages@[msg as int].fields@[idx[k] as int],
                        idx == pool.messages@[msg as int].oneofs@[fe.oneof_index->0 as int].field_indices@,
                        fe.oneof_index is Some,
                        own == fe.number,
                        numbers_sorted(slot_models(self.fields@)),
                        self.desc.pool_view() == old(self).model().pool,
                        self.desc.index() == old(self).model().index,
                        slot_get(slot_models(self.fields@), own) == slot_get(before, own),
                        forall|m: u32|
                            m != own ==> #[trigger] slot_get(slot_models(self.fields@), m) == (if exists|k: int|
                                0 <= k < j && #[trigger] pool.messages@[msg as int].fields@[idx[k] as int].number
                                    == m {
                                None
                            } else {
                                slot_get(before, m)
                            }),
                    decreases members@.len() - j,
                {
                    let n = members[j].number();
                    if n != own {
                        take_slot(&mut self.fields, n);
                    }
                    proof {
                        assert(members@[j as int].entry().number == n);
                        assert forall|m: u32| m != own implies #[trigger] slot_get(slot_models(self.fields@), m) == (if exists|k: int|
                            0 <= k < j + 1 && #[trigger] pool.messages@[msg as int].fields@[idx[k] as int].number
                                == m {
                            None
                        } else {
                            slot_get(before, m)
                        }) by {
                            if m == n {
                                assert(pool.messages@[msg as int].fields@[idx[j as int] as int].number == m);
                            } else {
                                if exists|k: int|
                                    0 <= k < j + 1 && #[trigger] pool.messages@[msg as int].fields@[idx[k] as int].number
                                        == m {
                                    let k = choose|k: int|
                                        0 <= k < j + 1 && #[trigger] pool.messages@[msg as int].fields@[idx[k] as int].number
                                            == m;
                                    assert(k < j);
                                }
                            }
                        }
                    }
                    j = j + 1;
                }
            },
        }
        proof {
            self.lemma_model();
        }
    }

    /// Store `value` for `field`, clearing the other members of its oneof.
    pub fn set_field(&mut self, field: &FieldDescriptor, value: Value)
        requires
            old(self).wf(),
            value_fits(field.pool_view(), field.entry(), value.model()),
        ensures
            final(self).wf(),
            final(self).model().pool == old(self).model().pool,
            final(self).model().index == old(self).model().index,
            set_effect(
                field.pool_view(),
                field.message(),
                field.entry(),
                old(self).model().slots,
                final(self).model().slots,
                Some(value.model()),
            ),
    {
        let ghost vm = value.model();
        self.clear_siblings(field);
        let ghost mid = self.model().slots;
        put_slot(&mut self.fields, field.number(), Slot::Value(value));
        proof {
            self.lemma_model();
        }
    }

    /// Store `value` for `field` if it is valid for the field.
    pub fn try_set_field(&mut self, field: &FieldDescriptor, value: Value) -> (r: Result<
        (),
        SetFieldError,
    >)
        requires
            old(self).wf(),
        ensures
            final(self).wf(),
            final(self).model().pool == old(self).model().pool,
            final(self).model().index == old(self).model().index,
            r is Ok ==> value_fits(field.pool_view(), field.entry(), value.model()) && set_effect(
                field.pool_view(),
                field.message(),
                field.entry(),
                old(self).model().slots,
                final(self).model().slots,
                Some(value.model()),
            ),
            r is Err ==> final(self).model() == old(self).model() && r matches Err(
                SetFieldError::InvalidType { .. },
            ),
            r matches Err(SetFieldError::InvalidType { field: f, value: v }) ==> f.pool_view()
                == field.pool_view() && f.message() == field.message() && f.index() == field.index()
                && v.model() == value.model(),
            !value_fits(field.pool_view(), field.entry(), value.model()) ==> r is Err,
            (value_fits(field.pool_view(), field.entry(), value.model()) && !holds_message(
                value.model(),
            )) ==> r is Ok,
    {
        if value_valid(field, &value) {
            self.set_field(field, value);
            Ok(())
        } else {
            Err(SetFieldError::InvalidType { field: field.clone_handle(), value: Box::new(value) })
        }
    }

    /// Remove the field's value and those of the other members of its oneof.
    pub fn clear_field(&mut self, field: &FieldDescriptor)
        requires
            old(self).wf(),
        ensures
            final(self).wf(),
            final(self).model().pool == old(self).model().pool,
            final(self).model().index == old(self).model().index,
            set_effect(
                field.pool_view(),
                field.message(),
                field.entry(),
                old(self).model().slots,
                final(self).model().slots,
                None,
            ),
    {
        self.clear_siblings(field);
        take_slot(&mut self.fields, field.number());
        proof {
            self.lemma_model();
        }
    }
}

/// Whether a value is or holds (in a list or map) a message.
pub open spec fn holds_message(v: ValueModel) -> bool {
    match v {
        ValueModel::Message(_) => true,
        ValueModel::List(items) => exists|i: int| 0 <= i < items.len() && #[trigger] items[i] is Message,
        ValueModel::Mapping(es) => exists|i: int| 0 <= i < es.len() && #[trigger] es[i].1 is Message,
        _ => false,
    }
}

/// Whether `v` is the zero value of kind `k`.
pub fn is_zero_value(k: KindRef, v: &Value) -> (r: bool)
    ensures
        r == is_zero(k, v.model()),
{
    proof {
        match v {
            Value::List(l) => lemma_models_len(l@),
            Value::Mapping(m) => lemma_entry_models_len(m@),
            Value::Message(m) => {
                m.lemma_model();
                lemma_slot_models_len(m.fields@);
            },
            _ => {},
        }
    }
    match (v, k) {
        (Value::Bool(b), KindRef::Bool) => !*b,
        (Value::I32(x), KindRef::Int32) | (Value::I32(x), KindRef::Sint32) | (
            Value::I32(x),
            KindRef::Sfixed32,
        ) => *x == 0,
        (Value::I64(x), KindRef::Int64) | (Value::I64(x), KindRef::Sint64) | (
            Value::I64(x),
            KindRef::Sfixed64,
        ) => *x == 0,
        (Value::U32(x), KindRef::Uint32) | (Value::U32(x), KindRef::Fixed32) => *x == 0,
        (Value::U64(x), KindRef::Uint64) | (Value::U64(x), KindRef::Fixed64) => *x == 0,
        (Value::F32(bits), KindRef::Float) => *bits % 0x8000_0000 == 0,
        (Value::F64(bits), KindRef::Double) => *bits % 0x8000_0000_0000_0000 == 0,
        (Value::String(s), KindRef::String) => s.as_str().is_empty(),
        (Value::Bytes(b), KindRef::Bytes) => b.len() == 0,
        (Value::EnumNumber(n), KindRef::Enum(_)) => *n == 0,
        (Value::Message(m), KindRef::Message(_)) => m.fields.len() == 0,
        (Value::List(l), _) => l.len() == 0,
        (Value::Mapping(m), _) => m.len() == 0,
        _ => false,
    }
}


/// Whether `v` fits kind `k`; a message value fits when it shares the
/// field's pool allocation and has the field's message type.
fn kind_valid(field: &FieldDescriptor, k: KindRef, v: &Value) -> (r: bool)
    ensures
        r ==> kind_fits(field.pool_view(), k, v.model()),
        (kind_fits(field.pool_view(), k, v.model()) && !(v.model() is Message)) ==> r,
{
    match (k, v) {
        (KindRef::Bool, Value::Bool(_)) => true,
        (KindRef::Int32, Value::I32(_)) | (KindRef::Sint32, Value::I32(_)) | (
            KindRef::Sfixed32,
            Value::I32(_),
        ) => true,
        (KindRef::Int64, Value::I64(_)) | (KindRef::Sint64, Value::I64(_)) | (
            KindRef::Sfixed64,
            Value::I64(_),
        ) => true,
        (KindRef::Uint32, Value::U32(_)) | (KindRef::Fixed32, Value::U32(_)) => true,
        (KindRef::Uint64, Value::U64(_)) | (KindRef::Fixed64, Value::U64(_)) => true,
        (KindRef::Float, Value::F32(_)) => true,
        (KindRef::Double, Value::F64(_)) => true,
        (KindRef::String, Value::String(_)) => true,
        (KindRef::Bytes, Value::Bytes(_)) => true,
        (KindRef::Enum(_), Value::EnumNumber(_)) => true,
        (KindRef::Message(i), Value::Message(m)) => {
            proof {
                m.lemma_model();
            }
            m.desc.idx() == i && crate::pool::same_allocation(m.desc.pool_ref(), field.pool_ref())
        },
        _ => false,
    }
}

fn key_valid(k: KindRef, key: &MapKey) -> (r: bool)
    ensures
        r == key_fits(k, key.model()),
{
    match (k, key) {
        (KindRef::Bool, MapKey::Bool(_)) => true,
        (KindRef::Int32, MapKey::I32(_)) | (KindRef::Sint32, MapKey::I32(_)) | (
            KindRef::Sfixed32,
            MapKey::I32(_),
        ) => true,
        (KindRef::Int64, MapKey::I64(_)) | (KindRef::Sint64, MapKey::I64(_)) | (
            KindRef::Sfixed64,
            MapKey::I64(_),
        ) => true,
        (KindRef::Uint32, MapKey::U32(_)) | (KindRef::Fixed32, MapKey::U32(_)) => true,
        (KindRef::Uint64, MapKey::U64(_)) | (KindRef::Fixed64, MapKey::U64(_)) => true,
        (KindRef::String, MapKey::String(_)) => true,
        _ => false,
    }
}

/// Key and value kinds of a map field.
pub fn map_entry_kinds(field: &FieldDescriptor) -> (r: Option<(KindRef, KindRef)>)
    ensures
        r == map_kinds(field.pool_view(), field.entry()),
{
    match field.kind_ref() {
        KindRef::Message(i) => {
            let entry = MessageDescriptor::new(field.pool_ref().clone_handle(), i);
            if !entry.is_map_entry() {
                return None;
            }
            let kf = entry.get_field_by_number(1);
            let vf = entry.get_field_by_number(2);
            proof {
                lemma_entry_by_number(fields_of(field.pool_view(), i), 1);
                lemma_entry_by_number(fields_of(field.pool_view(), i), 2);
                if kf is Some {
                    let j = choose|j: int|
                        0 <= j < fields_of(field.pool_view(), i).len()
                            && #[trigger] fields_of(field.pool_view(), i)[j].number == 1
                            && entry_by_number(fields_of(field.pool_view(), i), 1) == Some(
                            fields_of(field.pool_view(), i)[j],
                        ) && forall|k: int|
                            0 <= k < j ==> #[trigger] fields_of(field.pool_view(), i)[k].number != 1;
                    assert(j == kf->0.index());
                }
                if vf is Some {
                    let j = choose|j: int|
                        0 <= j < fields_of(field.pool_view(), i).len()
                            && #[trigger] fields_of(field.pool_view(), i)[j].number == 2
                            && entry_by_number(fields_of(field.pool_view(), i), 2) == Some(
                            fields_of(field.pool_view(), i)[j],
                        ) && forall|k: int|
                            0 <= k < j ==> #[trigger] fields_of(field.pool_view(), i)[k].number != 2;
                    assert(j == vf->0.index());
                }
            }
            match (kf, vf) {
                (Some(k), Some(v)) => Some((k.kind_ref(), v.kind_ref())),
                _ => None,
            }
        },
        _ => None,
    }
}

/// Whether `v` is a valid value for `field` (see [`value_fits`]); message
/// values must share the field's pool allocation.
pub fn value_valid(field: &FieldDescriptor, v: &Value) -> (r: bool)
    ensures
        r ==> value_fits(field.pool_view(), field.entry(), v.model()),
        (value_fits(field.pool_view(), field.entry(), v.model()) && !holds_message(v.model()))
            ==> r,
{
    let ghost pool = field.pool_view();
    if is_map_field(field) {
        match v {
            Value::Mapping(es) => {
                let (kk, vk) = match map_entry_kinds(field) {
                    Some(p) => p,
                    None => {
                        return false;
                    },
                };
                proof {
                    lemma_entry_models_len(es@);
                }
                let mut i: usize = 0;
                while i < es.len()
                    invariant
                        i <= es@.len(),
                        *v == Value::Mapping(*es),
                        map_kinds(field.pool_view(), field.entry()) == Some((kk, vk)),
                        field_is_map(field.pool_view(), field.entry()),
                        entry_models(es@).len() == es@.len(),
                        forall|k: int|
                            0 <= k < es@.len() ==> #[trigger] entry_models(es@)[k] == (
                            es@[k].0.model(),
                            es@[k].1.model(),
                        ),
                        forall|k: int|
                            0 <= k < i ==> key_fits(kk, (#[trigger] es@[k]).0.model()) && kind_fits(
                                field.pool_view(),
                                vk,
                                es@[k].1.model(),
                            ),
                    decreases es@.len() - i,
                {
                    if !key_valid(kk, &es[i].0) {
                        proof {
                            assert(entry_models(es@)[i as int].0 == es@[i as int].0.model());
                            assert(!key_fits(kk, entry_models(es@)[i as int].0));
                            assert(v.model() == ValueModel::Mapping(entry_models(es@)));
                            assert(!value_fits(field.pool_view(), field.entry(), v.model()));
                        }
                        return false;
                    }
                    if !kind_valid(field, vk, &es[i].1) {
                        proof {
                            assert(entry_models(es@)[i as int].1 == es@[i as int].1.model());
                            assert(v.model() == ValueModel::Mapping(entry_models(es@)));
                            if !(es@[i as int].1.model() is Message) {
                                assert(!kind_fits(field.pool_view(), vk, es@[i as int].1.model()));
                                assert(!value_fits(field.pool_view(), field.entry(), v.model()));
                            } else {
                                assert(entry_models(es@)[i as int].1 is Message);
                                assert(holds_message(v.model()));
                            }
                        }
                        return false;
                    }
                    i = i + 1;
                }
                proof {
                    assert forall|k: int| 0 <= k < entry_models(es@).len() implies key_fits(
                        kk,
                        #[trigger] entry_models(es@)[k].0,
                    ) && kind_fits(field.pool_view(), vk, entry_models(es@)[k].1) by {
                        assert(entry_models(es@)[k] == (es@[k].0.model(), es@[k].1.model()));
                    }
                }
                true
            },
            _ => false,
        }
    } else if field.cardinality() == Cardinality::Repeated {
        match v {
            Value::List(items) => {
                let k = field.kind_ref();
                proof {
                    lemma_models_len(items@);
                }
                let mut i: usize = 0;
                while i < items.len()
                    invariant
                        i <= items@.len(),
                        *v == Value::List(*items),
                        !field_is_map(field.pool_view(), field.entry()),
                        field.entry().cardinality == Cardinality::Repeated,
                        k == field.entry().kind,
                        models_of(items@).len() == items@.len(),
                        forall|j: int|
                            0 <= j < items@.len() ==> #[trigger] models_of(items@)[j]
                                == items@[j].model(),
                        forall|j: int|
                            0 <= j < i ==> kind_fits(field.pool_view(), k, (#[trigger] items@[j]).model()),
                    decreases items@.len() - i,
                {
                    if !kind_valid(field, k, &items[i]) {
                        proof {
                            assert(models_of(items@)[i as int] == items@[i as int].model());
                            assert(v.model() == ValueModel::List(models_of(items@)));
                            if !(items@[i as int].model() is Message) {
                                assert(!value_fits(field.pool_view(), field.entry(), v.model()));
                            } else {
                                assert(models_of(items@)[i as int] is Message);
                                assert(holds_message(v.model()));
                            }
                        }
                        return false;
                    }
                    i = i + 1;
                }
                proof {
                    assert forall|j: int| 0 <= j < models_of(items@).len() implies kind_fits(
                        field.pool_view(),
                        k,
                        #[trigger] models_of(items@)[j],
                    ) by {
                        assert(models_of(items@)[j] == items@[j].model());
                    }
                }
                true
            },
            _ => false,
        }
    } else {
        kind_valid(field, field.kind_ref(), v)
    }
}


pub(crate) fn value_valid_shared(field: &FieldDescriptor, v: &Value) -> (r: bool)
    requires
        crate::json::shares_pool(v.model(), field.pool_view()),
    ensures
        r == value_fits(field.pool_view(), field.entry(), v.model()),
{
    let ghost pool = field.pool_view();
    if is_map_field(field) {
        match v {
            Value::Mapping(es) => {
                let (kk, vk) = match map_entry_kinds(field) {
                    Some(p) => p,
                    None => {
                        return false;
                    },
                };
                proof {
                    lemma_entry_models_len(es@);
                }
                let mut i: usize = 0;
                while i < es.len()
                    invariant
                        i <= es@.len(),
                        *v == Value::Mapping(*es),
                        map_kinds(field.pool_view(), field.entry()) == Some((kk, vk)),
                        crate::json::shares_pool(v.model(), field.pool_view()),
                        field_is_map(field.pool_view(), field.entry()),
                        entry_models(es@).len() == es@.len(),
                        forall|k: int|
                            0 <= k < es@.len() ==> #[trigger] entry_models(es@)[k] == (
                            es@[k].0.model(),
                            es@[k].1.model(),
                        ),
                        forall|k: int|
                            0 <= k < i ==> key_fits(kk, (#[trigger] es@[k]).0.model()) && kind_fits(
                                field.pool_view(),
                                vk,
                                es@[k].1.model(),
                            ),
                    decreases es@.len() - i,
                {
                    if !key_valid(kk, &es[i].0) {
                        proof {
                            assert(entry_models(es@)[i as int].0 == es@[i as int].0.model());
                            assert(!key_fits(kk, entry_models(es@)[i as int].0));
                            assert(v.model() == ValueModel::Mapping(entry_models(es@)));
                            assert(!value_fits(field.pool_view(), field.entry(), v.model()));
                        }
                        return false;
                    }
                    proof {
                        assert(entry_models(es@)[i as int].1 == es@[i as int].1.model());
                    }
                    if !kind_valid_shared(field, vk, &es[i].1) {
                        proof {
                            assert(entry_models(es@)[i as int].1 == es@[i as int].1.model());
                            assert(v.model() == ValueModel::Mapping(entry_models(es@)));
                            assert(!kind_fits(field.pool_view(), vk, es@[i as int].1.model()));
                            assert(!value_fits(field.pool_view(), field.entry(), v.model()));
                        }
                        return false;
                    }
                    i = i + 1;
                }
                proof {
                    assert forall|k: int| 0 <= k < entry_models(es@).len() implies key_fits(
                        kk,
                        #[trigger] entry_models(es@)[k].0,
                    ) && kind_fits(field.pool_view(), vk, entry_models(es@)[k].1) by {
                        assert(entry_models(es@)[k] == (es@[k].0.model(), es@[k].1.model()));
                    }
                }
                true
            },
            _ => false,
        }
    } else if field.cardinality() == Cardinality::Repeated {
        match v {
            Value::List(items) => {
                let k = field.kind_ref();
                proof {
                    lemma_models_len(items@);
                }
                let mut i: usize = 0;
                while i < items.len()
                    invariant
                        i <= items@.len(),
                        *v == Value::List(*items),
                        !field_is_map(field.pool_view(), field.entry()),
                        field.entry().cardinality == Cardinality::Repeated,
                        k == field.entry().kind,
                        crate::json::shares_pool(v.model(), field.pool_view()),
                        models_of(items@).len() == items@.len(),
                        forall|j: int|
                            0 <= j < items@.len() ==> #[trigger] models_of(items@)[j]
                                == items@[j].model(),
                        forall|j: int|
                            0 <= j < i ==> kind_fits(field.pool_view(), k, (#[trigger] items@[j]).model()),
                    decreases items@.len() - i,
                {
                    proof {
                        assert(models_of(items@)[i as int] == items@[i as int].model());
                    }
                    if !kind_valid_shared(field, k, &items[i]) {
                        proof {
                            assert(models_of(items@)[i as int] == items@[i as int].model());
                            assert(v.model() == ValueModel::List(models_of(items@)));
                            assert(!value_fits(field.pool_view(), field.entry(), v.model()));
                        }
                        return false;
                    }
                    i = i + 1;
                }
                proof {
                    assert forall|j: int| 0 <= j < models_of(items@).len() implies kind_fits(
                        field.pool_view(),
                        k,
                        #[trigger] models_of(items@)[j],
                    ) by {
                        assert(models_of(items@)[j] == items@[j].model());
                    }
                }
                true
            },
            _ => false,
        }
    } else {
        kind_valid_shared(field, field.kind_ref(), v)
    }
}


/// Whether `v` is a value of kind `k`, its message (if any) being of the
/// field's pool.
fn kind_valid_shared(field: &FieldDescriptor, k: KindRef, v: &Value) -> (r: bool)
    requires
        v.model() matches ValueModel::Message(m) ==> m.pool == field.pool_view(),
    ensures
        r == kind_fits(field.pool_view(), k, v.model()),
{
    match (k, v) {
        (KindRef::Message(i), Value::Message(m)) => {
            proof {
                m.lemma_model();
            }
            m.desc.idx() == i
        },
        _ => kind_valid(field, k, v),
    }
}


pub proof fn lemma_zero_fits(pool: PoolInner, k: KindRef)
    ensures
        kind_fits(pool, k, zero_of(pool, k)),
{
}

pub proof fn lemma_map_kinds_ok(pool: PoolInner, f: FieldEntry)
    requires
        pool.wf(),
    ensures
        map_kinds(pool, f) matches Some((kk, vk)) ==> crate::pool::kind_ok(
            kk,
            pool.messages@.len(),
            pool.enums@.len(),
        ) && crate::pool::kind_ok(vk, pool.messages@.len(), pool.enums@.len()),
{
    if let KindRef::Message(i) = f.kind {
        if i < pool.messages@.len() {
            let fs = fields_of(pool, i);
            assert(pool.messages@[i as int].wf_in(
                pool.files@.len(),
                pool.messages@.len(),
                pool.enums@.len(),
            ));
            lemma_entry_by_number(fs, 1);
            lemma_entry_by_number(fs, 2);
            if entry_by_number(fs, 1) is Some {
                let j = choose|j: int|
                    0 <= j < fs.len() && #[trigger] fs[j].number == 1 && entry_by_number(fs, 1)
                        == Some(fs[j]) && forall|k: int| 0 <= k < j ==> #[trigger] fs[k].number != 1;
                assert(crate::pool::kind_ok(fs[j].kind, pool.messages@.len(), pool.enums@.len()));
            }
            if entry_by_number(fs, 2) is Some {
                let j = choose|j: int|
                    0 <= j < fs.len() && #[trigger] fs[j].number == 2 && entry_by_number(fs, 2)
                        == Some(fs[j]) && forall|k: int| 0 <= k < j ==> #[trigger] fs[k].number != 2;
                assert(crate::pool::kind_ok(fs[j].kind, pool.messages@.len(), pool.enums@.len()));
            }
        }
    }
}

/// Remove and return the slot stored under `n`.
fn pop_slot(fields: &mut Vec<(u32, Slot)>, n: u32) -> (r: Option<Slot>)
    requires
        numbers_sorted(slot_models(old(fields)@)),
    ensures
        numbers_sorted(slot_models(final(fields)@)),
        match r {
            Some(x) => slot_get(slot_models(old(fields)@), n) == Some(x.model()),
            None => slot_get(slot_models(old(fields)@), n) is None,
        },
        slot_view(slot_models(final(fields)@)) == slot_view(slot_models(old(fields)@)).remove(n),
{
    proof {
        lemma_slot_models_len(fields@);
    }
    let (pos, found) = locate(fields, n);
    if !found {
        proof {
            let bm = slot_models(fields@);
            lemma_slot_get_index(bm, n);
            assert forall|i: int| 0 <= i < bm.len() implies #[trigger] bm[i].0 != n by {
                assert(bm[i].0 == fields@[i].0);
            }
            assert(slot_view(bm).remove(n) =~= slot_view(bm));
        }
        return None;
    }
    let ghost before = fields@;
    let (_, slot) = fields.remove(pos);
    proof {
        lemma_slot_models_len(before);
        lemma_slot_models_len(fields@);
        let bm = slot_models(before);
        let am = slot_models(fields@);
        assert forall|i: int, j: int| 0 <= i < j < am.len() implies #[trigger] am[i].0 < #[trigger] am[j].0 by {
            let bi = if i < pos { i } else { i + 1 };
            let bj = if j < pos { j } else { j + 1 };
            assert(am[i].0 == fields@[i].0 && fields@[i] == before[bi] && bm[bi].0 == before[bi].0);
            assert(am[j].0 == fields@[j].0 && fields@[j] == before[bj] && bm[bj].0 == before[bj].0);
        }
        lemma_slot_get_index(bm, n);
        assert(bm[pos as int] == (n, slot.model()));
        let a = slot_view(am);
        let e = slot_view(bm).remove(n);
        assert forall|m: u32| #[trigger] a.contains_key(m) == e.contains_key(m) && (a.contains_key(m) ==> a[m] == e[m]) by {
            lemma_slot_get_index(am, m);
            lemma_slot_get_index(bm, m);
            if m == n {
                assert forall|i: int| 0 <= i < am.len() implies #[trigger] am[i].0 != m by {
                    let bi = if i < pos { i } else { i + 1 };
                    assert(am[i] == bm[bi]);
                    if bi < pos {
                        assert(bm[bi].0 < bm[pos as int].0);
                    } else {
                        assert(bm[pos as int].0 < bm[bi].0);
                    }
                }
            } else if exists|i: int| 0 <= i < bm.len() && bm[i].0 == m {
                let i = choose|i: int| 0 <= i < bm.len() && bm[i].0 == m;
                assert(i != pos);
                let ai = if i < pos { i } else { i - 1 };
                assert(am[ai] == bm[i]);
            } else {
                assert forall|i: int| 0 <= i < am.len() implies #[trigger] am[i].0 != m by {
                    let bi = if i < pos { i } else { i + 1 };
                    assert(am[i] == bm[bi]);
                }
            }
        }
        assert(a =~= e);
    }
    Some(slot)
}

/// Position of the entry whose key equals `key`.
fn find_key(es: &Vec<(MapKey, Value)>, key: &MapKey) -> (r: Option<usize>)
    ensures
        r matches Some(i) ==> i < es@.len() && es@[i as int].0.model() == key.model() && forall|k: int|
            0 <= k < i ==> #[trigger] es@[k].0.model() != key.model(),
        r is None ==> forall|k: int| 0 <= k < es@.len() ==> #[trigger] es@[k].0.model() != key.model(),
{
    let mut i: usize = 0;
    while i < es.len()
        invariant
            i <= es@.len(),
            forall|k: int| 0 <= k < i ==> #[trigger] es@[k].0.model() != key.model(),
        decreases es@.len() - i,
    {
        if key_eq(&es[i].0, key) {
            return Some(i);
        }
        i = i + 1;
    }
    None
}

/// Whether two map keys are equal.
fn key_eq(a: &MapKey, b: &MapKey) -> (r: bool)
    ensures
        r == (a.model() == b.model()),
{
    match (a, b) {
        (MapKey::Bool(x), MapKey::Bool(y)) => *x == *y,
        (MapKey::I32(x), MapKey::I32(y)) => *x == *y,
        (MapKey::I64(x), MapKey::I64(y)) => *x == *y,
        (MapKey::U32(x), MapKey::U32(y)) => *x == *y,
        (MapKey::U64(x), MapKey::U64(y)) => *x == *y,
        (MapKey::String(x), MapKey::String(y)) => *x == *y,
        _ => false,
    }
}

impl DynamicMessage {
    /// Make sure list field `f` has a stored list.
    pub(crate) fn ensure_list(&mut self, f: &FieldDescriptor)
        requires
            old(self).wf(),
            belongs(old(self).model(), f),
            !field_is_map(f.pool_view(), f.entry()),
            f.entry().cardinality == Cardinality::Repeated,
        ensures
            final(self).wf(),
            final(self).model().pool == old(self).model().pool,
            final(self).model().index == old(self).model().index,
            slot_view(final(self).model().slots) == ready(
                old(self).model().pool,
                old(self).model().index,
                f.entry(),
                slot_view(old(self).model().slots),
                ValueModel::List(seq![]),
            ),
    {
        if self.value_at(f.number()).is_none() {
            let empty = Value::List(Vec::new());
            proof {
                assert(models_of(Seq::<Value>::empty()) =~= seq![]);
            }
            let ghost before = self.model().slots;
            self.set_field(f, empty);
            proof {
                lemma_set_view(old(self).model().pool, old(self).model().index, f.entry(), before, self.model().slots, ValueModel::List(seq![]));
                assert(!(slot_view(before).contains_key(f.entry().number) && slot_view(before)[f.entry().number] is Value));
            }
        } else {
            proof {
                assert(slot_view(self.model().slots).contains_key(f.entry().number));
            }
        }
    }

    /// Append `item` to the list stored for `f`.
    pub(crate) fn push_list_item(&mut self, f: &FieldDescriptor, item: Value)
        requires
            old(self).wf(),
        ensures
            final(self).wf(),
            final(self).model().pool == old(self).model().pool,
            final(self).model().index == old(self).model().index,
            slot_view(final(self).model().slots) == push_item_map(
                slot_view(old(self).model().slots),
                f.entry().number,
                item.model(),
            ),
    {
        proof {
            self.lemma_model();
        }
        let ghost old_view = slot_view(self.model().slots);
        let ghost im = item.model();
        let n = f.number();
        match pop_slot(&mut self.fields, n) {
            Some(Slot::Value(Value::List(mut items))) => {
                let ghost before = items@;
                items.push(item);
                proof {
                    lemma_models_len(before);
                    lemma_models_len(items@);
                    assert(models_of(items@) =~= models_of(before).push(im));
                }
                put_slot(&mut self.fields, n, Slot::Value(Value::List(items)));
                proof {
                    assert(slot_view(slot_models(self.fields@)) =~= push_item_map(old_view, n, im));
                }
            },
            Some(other) => {
                let ghost om = other.model();
                put_slot(&mut self.fields, n, other);
                proof {
                    assert(old_view.contains_key(n) && old_view[n] == om);
                    assert(slot_view(slot_models(self.fields@)) =~= old_view);
                }
            },
            None => {
                proof {
                    assert(!old_view.contains_key(n));
                    assert(slot_view(slot_models(self.fields@)) =~= old_view);
                }
            },
        }
        proof {
            self.lemma_model();
        }
    }

    /// Insert `key => value` into the map stored for map field `f`,
    /// replacing an entry with an equal key.
    pub(crate) fn insert_map_entry(&mut self, f: &FieldDescriptor, key: MapKey, value: Value)
        requires
            old(self).wf(),
            belongs(old(self).model(), f),
            field_is_map(f.pool_view(), f.entry()),
            map_kinds(f.pool_view(), f.entry()) is Some,
        ensures
            final(self).wf(),
            final(self).model().pool == old(self).model().pool,
            final(self).model().index == old(self).model().index,
            slot_view(final(self).model().slots) == insert_entry_map(
                old(self).model().pool,
                old(self).model().index,
                f.entry(),
                slot_view(old(self).model().slots),
                key.model(),
                value.model(),
            ),
    {
        let ghost km = key.model();
        let ghost vm = value.model();
        let ghost mp1 = ready(
            old(self).model().pool,
            old(self).model().index,
            f.entry(),
            slot_view(old(self).model().slots),
            ValueModel::Mapping(seq![]),
        );
        if self.value_at(f.number()).is_none() {
            let empty = Value::Mapping(Vec::new());
            proof {
                assert(entry_models(Seq::<(MapKey, Value)>::empty()) =~= seq![]);
            }
            let ghost before = self.model().slots;
            self.set_field(f, empty);
            proof {
                lemma_set_view(old(self).model().pool, old(self).model().index, f.entry(), before, self.model().slots, ValueModel::Mapping(seq![]));
            }
        } else {
            proof {
                assert(slot_view(self.model().slots).contains_key(f.entry().number));
            }
        }
        proof {
            self.lemma_model();
            assert(slot_view(slot_models(self.fields@)) == mp1);
        }
        let n = f.number();
        match pop_slot(&mut self.fields, n) {
            Some(Slot::Value(Value::Mapping(mut es))) => {
                let ghost before = es@;
                proof {
                    lemma_entry_models_len(before);
                }
                match find_key(&es, &key) {
                    Some(i) => {
                        proof {
                            lemma_key_index(entry_models(before), km, i as int);
                        }
                        es.remove(i);
                        es.insert(i, (key, value));
                        proof {
                            lemma_entry_models_len(es@);
                            assert(entry_models(es@) =~= entry_models(before).update(i as int, (km, vm)));
                        }
                    },
                    None => {
                        proof {
                            lemma_key_index(entry_models(before), km, before.len() as int);
                        }
                        es.push((key, value));
                        proof {
                            lemma_entry_models_len(es@);
                            assert(entry_models(es@) =~= entry_models(before).push((km, vm)));
                        }
                    },
                }
                put_slot(&mut self.fields, n, Slot::Value(Value::Mapping(es)));
                proof {
                    assert(slot_view(slot_models(self.fields@)) =~= insert_entry_map(
                        old(self).model().pool,
                        old(self).model().index,
                        f.entry(),
                        slot_view(old(self).model().slots),
                        km,
                        vm,
                    ));
                }
            },
            Some(other) => {
                let ghost om = other.model();
                put_slot(&mut self.fields, n, other);
                proof {
                    assert(mp1.contains_key(n) && mp1[n] == om);
                    assert(slot_view(slot_models(self.fields@)) =~= mp1);
                }
            },
            None => {
                proof {
                    assert(slot_view(slot_models(self.fields@)) =~= mp1);
                }
            },
        }
        proof {
            self.lemma_model();
        }
    }

    /// Record an unknown field read for number `n`.
    pub(crate) fn add_unknown(&mut self, n: u32, u: UnknownField)
        requires
            old(self).wf(),
        ensures
            final(self).wf(),
            final(self).model().pool == old(self).model().pool,
            final(self).model().index == old(self).model().index,
            slot_view(final(self).model().slots) == add_unknown_map(
                slot_view(old(self).model().slots),
                n,
                u.model(),
            ),
    {
        proof {
            self.lemma_model();
        }
        let ghost old_view = slot_view(self.model().slots);
        let ghost um = u.model();
        match pop_slot(&mut self.fields, n) {
            Some(Slot::Unknown(mut set)) => {
                set.push(u);
                put_slot(&mut self.fields, n, Slot::Unknown(set));
                proof {
                    assert(slot_view(slot_models(self.fields@)) =~= add_unknown_map(old_view, n, um));
                }
            },
            _ => {
                let mut set = UnknownFieldSet::new();
                set.push(u);
                put_slot(&mut self.fields, n, Slot::Unknown(set));
                proof {
                    assert(set.model() =~= seq![um]);
                    assert(slot_view(slot_models(self.fields@)) =~= add_unknown_map(old_view, n, um));
                }
            },
        }
        proof {
            self.lemma_model();
        }
    }
}


// ── access by name and number ───────────────────────────────────────────

/// The first field of `fs` named `name`.
pub open spec fn entry_by_name(fs: Seq<FieldEntry>, name: Seq<char>) -> Option<FieldEntry>
    decreases fs.len(),
{
    if fs.len() == 0 {
        None
    } else if fs[0].name@ == name {
        Some(fs[0])
    } else {
        entry_by_name(fs.drop_first(), name)
    }
}

pub proof fn lemma_entry_by_name(fs: Seq<FieldEntry>, name: Seq<char>)
    ensures
        entry_by_name(fs, name) is Some <==> exists|i: int|
            0 <= i < fs.len() && #[trigger] fs[i].name@ == name,
        forall|i: int|
            0 <= i < fs.len() && #[trigger] fs[i].name@ == name && (forall|k: int|
                0 <= k < i ==> #[trigger] fs[k].name@ != name) ==> entry_by_name(fs, name) == Some(
                fs[i],
            ),
    decreases fs.len(),
{
    if fs.len() > 0 {
        let t = fs.drop_first();
        lemma_entry_by_name(t, name);
        if fs[0].name@ != name {
            if exists|i: int| 0 <= i < fs.len() && #[trigger] fs[i].name@ == name {
                let i = choose|i: int| 0 <= i < fs.len() && #[trigger] fs[i].name@ == name;
                assert(t[i - 1] == fs[i]);
            }
            assert forall|i: int|
                0 <= i < fs.len() && #[trigger] fs[i].name@ == name && (forall|k: int|
                    0 <= k < i ==> #[trigger] fs[k].name@ != name) implies entry_by_name(fs, name)
                == Some(fs[i]) by {
                assert(t[i - 1] == fs[i]);
                assert forall|k: int| 0 <= k < i - 1 implies #[trigger] t[k].name@ != name by {
                    assert(t[k] == fs[k + 1]);
                }
            }
        } else {
            assert forall|i: int|
                0 <= i < fs.len() && #[trigger] fs[i].name@ == name && (forall|k: int|
                    0 <= k < i ==> #[trigger] fs[k].name@ != name) implies entry_by_name(fs, name)
                == Some(fs[i]) by {
                if i > 0 {
                    assert(fs[0].name@ == name);
                }
            }
        }
    }
}

/// Naming a field by name or by its number selects the same field:
/// field numbers of a message are distinct.
pub proof fn lemma_name_number_dual(pool: PoolInner, msg: u32, name: Seq<char>)
    requires
        pool.wf(),
        msg < pool.messages@.len(),
        entry_by_name(fields_of(pool, msg), name) is Some,
    ensures
        entry_by_number(fields_of(pool, msg), entry_by_name(fields_of(pool, msg), name)->0.number)
            == entry_by_name(fields_of(pool, msg), name),
{
    let fs = fields_of(pool, msg);
    assert(pool.messages@[msg as int].wf_in(pool.files@.len(), pool.messages@.len(), pool.enums@.len()));
    lemma_entry_by_name(fs, name);
    let i = choose|i: int| 0 <= i < fs.len() && #[trigger] fs[i].name@ == name;
    lemma_first_name(fs, name, i);
    let j = choose|j: int|
        0 <= j < fs.len() && #[trigger] fs[j].name@ == name && forall|k: int|
            0 <= k < j ==> #[trigger] fs[k].name@ != name;
    assert(entry_by_name(fs, name) == Some(fs[j]));
    let n = fs[j].number;
    lemma_entry_by_number(fs, n);
    let m = choose|m: int|
        0 <= m < fs.len() && #[trigger] fs[m].number == n && entry_by_number(fs, n) == Some(fs[m])
            && forall|k: int| 0 <= k < m ==> #[trigger] fs[k].number != n;
    if m != j {
        if m < j {
            assert(fs[m].number != fs[j].number);
        } else {
            assert(fs[j].number != fs[m].number);
        }
    }
}

proof fn lemma_first_name(fs: Seq<FieldEntry>, name: Seq<char>, i: int)
    requires
        0 <= i < fs.len(),
        fs[i].name@ == name,
    ensures
        exists|j: int|
            0 <= j < fs.len() && #[trigger] fs[j].name@ == name && forall|k: int|
                0 <= k < j ==> #[trigger] fs[k].name@ != name,
    decreases i,
{
    if exists|k: int| 0 <= k < i && #[trigger] fs[k].name@ == name {
        let k = choose|k: int| 0 <= k < i && #[trigger] fs[k].name@ == name;
        lemma_first_name(fs, name, k);
    }
}

fn field_named(desc: &MessageDescriptor, name: &str) -> (r: Option<FieldDescriptor>)
    ensures
        match entry_by_name(fields_of(desc.pool_view(), desc.index()), name@) {
            Some(e) => r is Some && r->0.entry() == e && r->0.pool_view() == desc.pool_view()
                && r->0.message() == desc.index(),
            None => r is None,
        },
{
    let r = desc.get_field_by_name(name);
    proof {
        let fs = fields_of(desc.pool_view(), desc.index());
        lemma_entry_by_name(fs, name@);
        if r is Some {
            assert(fs[r->0.index() as int] == r->0.entry());
        }
    }
    r
}

impl DynamicMessage {
    /// The message's declared field named `name`, by number.
    pub open spec fn named(self, name: Seq<char>) -> Option<FieldEntry> {
        entry_by_name(fields_of(self.model().pool, self.model().index), name)
    }

    /// The message's declared field numbered `n`.
    pub open spec fn numbered(self, n: u32) -> Option<FieldEntry> {
        entry_by_number(fields_of(self.model().pool, self.model().index), n)
    }

    /// What reading field `f` gives: the stored value or the default.
    pub open spec fn read(self, f: FieldEntry) -> ValueModel {
        match slot_get(self.model().slots, f.number) {
            Some(SlotModel::Value(v)) => v,
            _ => default_for(self.model().pool, f),
        }
    }

    fn desc_field_named(&self, name: &str) -> (r: Option<FieldDescriptor>)
        ensures
            match self.named(name@) {
                Some(e) => r is Some && r->0.entry() == e && belongs(self.model(), &r->0),
                None => r is None,
            },
    {
        proof {
            self.lemma_model();
        }
        field_named(&self.desc, name)
    }

    fn desc_field_numbered(&self, n: u32) -> (r: Option<FieldDescriptor>)
        ensures
            match self.numbered(n) {
                Some(e) => r is Some && r->0.entry() == e && belongs(self.model(), &r->0),
                None => r is None,
            },
    {
        proof {
            self.lemma_model();
        }
        crate::codec::field_for(&self.desc, n)
    }

    /// Whether the field named `name` is set (false for unknown names).
    pub fn has_field_by_name(&self, name: &str) -> (r: bool)
        requires
            self.wf(),
        ensures
            self.named(name@) is None ==> !r,
            self.named(name@) matches Some(e) ==> r == (match slot_get(self.model().slots, e.number) {
                Some(SlotModel::Value(v)) => e.supports_presence || !is_zero(e.kind, v),
                _ => false,
            }),
    {
        match self.desc_field_named(name) {
            Some(f) => self.has_field(&f),
            None => false,
        }
    }

    /// Whether the field numbered `n` is set (false for unknown numbers).
    pub fn has_field_by_number(&self, n: u32) -> (r: bool)
        requires
            self.wf(),
        ensures
            self.numbered(n) is None ==> !r,
            self.numbered(n) matches Some(e) ==> r == (match slot_get(self.model().slots, e.number) {
                Some(SlotModel::Value(v)) => e.supports_presence || !is_zero(e.kind, v),
                _ => false,
            }),
    {
        match self.desc_field_numbered(n) {
            Some(f) => self.has_field(&f),
            None => false,
        }
    }

    /// The value of the field named `name`, if the message declares one.
    pub fn get_field_by_name(&self, name: &str) -> (r: Option<Value>)
        requires
            self.wf(),
        ensures
            r is Some <==> self.named(name@) is Some,
            r is Some ==> r->0.model() == self.read(self.named(name@)->0),
    {
        match self.desc_field_named(name) {
            Some(f) => Some(self.get_field(&f)),
            None => None,
        }
    }

    /// The value of the field numbered `n`, if the message declares one.
    pub fn get_field_by_number(&self, n: u32) -> (r: Option<Value>)
        requires
            self.wf(),
        ensures
            r is Some <==> self.numbered(n) is Some,
            r is Some ==> r->0.model() == self.read(self.numbered(n)->0),
    {
        match self.desc_field_numbered(n) {
            Some(f) => Some(self.get_field(&f)),
            None => None,
        }
    }

    /// [`Self::get_field_mut`] for the field named `name`, if the message
    /// declares one; otherwise nothing changes.
    pub fn get_field_by_name_mut(&mut self, name: &str) -> (r: Option<&mut Value>)
        requires
            old(self).wf(),
        ensures
            r is Some <==> old(self).named(name@) is Some,
            r is None ==> *final(self) == *old(self),
            r is Some ==> (*r->0).model() == old(self).read(old(self).named(name@)->0),
            final(self).wf(),
            final(self).model().pool == old(self).model().pool,
            final(self).model().index == old(self).model().index,
            r is Some ==> set_effect(
                old(self).model().pool,
                old(self).model().index,
                old(self).named(name@)->0,
                old(self).model().slots,
                final(self).model().slots,
                Some((*final(r->0)).model()),
            ),
    {
        match self.desc_field_named(name) {
            Some(f) => Some(self.get_field_mut(&f)),
            None => None,
        }
    }

    /// [`Self::get_field_mut`] for the field numbered `n`, if the message
    /// declares one; otherwise nothing changes.
    pub fn get_field_by_number_mut(&mut self, n: u32) -> (r: Option<&mut Value>)
        requires
            old(self).wf(),
        ensures
            r is Some <==> old(self).numbered(n) is Some,
            r is None ==> *final(self) == *old(self),
            r is Some ==> (*r->0).model() == old(self).read(old(self).numbered(n)->0),
            final(self).wf(),
            final(self).model().pool == old(self).model().pool,
            final(self).model().index == old(self).model().index,
            r is Some ==> set_effect(
                old(self).model().pool,
                old(self).model().index,
                old(self).numbered(n)->0,
                old(self).model().slots,
                final(self).model().slots,
                Some((*final(r->0)).model()),
            ),
    {
        match self.desc_field_numbered(n) {
            Some(f) => Some(self.get_field_mut(&f)),
            None => None,
        }
    }

    /// Set the field named `name`; the message must declare it.
    pub fn set_field_by_name(&mut self, name: &str, value: Value)
        requires
            old(self).wf(),
            old(self).named(name@) is Some,
            value_fits(old(self).model().pool, old(self).named(name@)->0, value.model()),
        ensures
            final(self).wf(),
            final(self).model().pool == old(self).model().pool,
            final(self).model().index == old(self).model().index,
            set_effect(
                old(self).model().pool,
                old(self).model().index,
                old(self).named(name@)->0,
                old(self).model().slots,
                final(self).model().slots,
                Some(value.model()),
            ),
    {
        match self.desc_field_named(name) {
            Some(f) => self.set_field(&f, value),
            None => {},
        }
    }

    /// Set the field numbered `n`; the message must declare it.
    pub fn set_field_by_number(&mut self, n: u32, value: Value)
        requires
            old(self).wf(),
            old(self).numbered(n) is Some,
            value_fits(old(self).model().pool, old(self).numbered(n)->0, value.model()),
        ensures
            final(self).wf(),
            final(self).model().pool == old(self).model().pool,
            final(self).model().index == old(self).model().index,
            set_effect(
                old(self).model().pool,
                old(self).model().index,
                old(self).numbered(n)->0,
                old(self).model().slots,
                final(self).model().slots,
                Some(value.model()),
            ),
    {
        match self.desc_field_numbered(n) {
            Some(f) => self.set_field(&f, value),
            None => {},
        }
    }

    /// Set the field named `name` if the message declares it and the
    /// value is valid for it.
    pub fn try_set_field_by_name(&mut self, name: &str, value: Value) -> (r: Result<(), SetFieldError>)
        requires
            old(self).wf(),
        ensures
            final(self).wf(),
            final(self).model().pool == old(self).model().pool,
            final(self).model().index == old(self).model().index,
            old(self).named(name@) is None <==> r matches Err(SetFieldError::NotFound),
            r is Err ==> final(self).model() == old(self).model(),
            r matches Err(SetFieldError::InvalidType { field: f, value: v }) ==> f.pool_view()
                == old(self).model().pool && f.entry() == old(self).named(name@)->0 && v.model() == value.model(),
            r is Ok ==> value_fits(old(self).model().pool, old(self).named(name@)->0, value.model())
                && set_effect(
                old(self).model().pool,
                old(self).model().index,
                old(self).named(name@)->0,
                old(self).model().slots,
                final(self).model().slots,
                Some(value.model()),
            ),
            (old(self).named(name@) is Some && value_fits(
                old(self).model().pool,
                old(self).named(name@)->0,
                value.model(),
            ) && !holds_message(value.model())) ==> r is Ok,
    {
        match self.desc_field_named(name) {
            Some(f) => self.try_set_field(&f, value),
            None => Err(SetFieldError::NotFound),
        }
    }

    /// Set the field numbered `n` if the message declares it and the value
    /// is valid for it.
    pub fn try_set_field_by_number(&mut self, n: u32, value: Value) -> (r: Result<(), SetFieldError>)
        requires
            old(self).wf(),
        ensures
            final(self).wf(),
            final(self).model().pool == old(self).model().pool,
            final(self).model().index == old(self).model().index,
            old(self).numbered(n) is None <==> r matches Err(SetFieldError::NotFound),
            r is Err ==> final(self).model() == old(self).model(),
            r matches Err(SetFieldError::InvalidType { field: f, value: v }) ==> f.pool_view()
                == old(self).model().pool && f.entry() == old(self).numbered(n)->0 && v.model() == value.model(),
            r is Ok ==> value_fits(old(self).model().pool, old(self).numbered(n)->0, value.model())
                && set_effect(
                old(self).model().pool,
                old(self).model().index,
                old(self).numbered(n)->0,
                old(self).model().slots,
                final(self).model().slots,
                Some(value.model()),
            ),
            (old(self).numbered(n) is Some && value_fits(
                old(self).model().pool,
                old(self).numbered(n)->0,
                value.model(),
            ) && !holds_message(value.model())) ==> r is Ok,
    {
        match self.desc_field_numbered(n) {
            Some(f) => self.try_set_field(&f, value),
            None => Err(SetFieldError::NotFound),
        }
    }

    /// Clear the field named `name` (nothing happens for unknown names).
    pub fn clear_field_by_name(&mut self, name: &str)
        requires
            old(self).wf(),
        ensures
            final(self).wf(),
            final(self).model().pool == old(self).model().pool,
            final(self).model().index == old(self).model().index,
            old(self).named(name@) is None ==> final(self).model() == old(self).model(),
            old(self).named(name@) is Some ==> set_effect(
                old(self).model().pool,
                old(self).model().index,
                old(self).named(name@)->0,
                old(self).model().slots,
                final(self).model().slots,
                None,
            ),
    {
        match self.desc_field_named(name) {
            Some(f) => self.clear_field(&f),
            None => {},
        }
    }

    /// Clear the field numbered `n` (nothing happens for unknown numbers).
    pub fn clear_field_by_number(&mut self, n: u32)
        requires
            old(self).wf(),
        ensures
            final(self).wf(),
            final(self).model().pool == old(self).model().pool,
            final(self).model().index == old(self).model().index,
            old(self).numbered(n) is None ==> final(self).model() == old(self).model(),
            old(self).numbered(n) is Some ==> set_effect(
                old(self).model().pool,
                old(self).model().index,
                old(self).numbered(n)->0,
                old(self).model().slots,
                final(self).model().slots,
                None,
            ),
    {
        match self.desc_field_numbered(n) {
            Some(f) => self.clear_field(&f),
            None => {},
        }
    }
}


/// The numbers and values of the declared fields that hold a value among
/// `slots`, in order.
pub open spec fn declared_values(pool: PoolInner, msg: u32, slots: Seq<(u32, SlotModel)>) -> Seq<
    (u32, ValueModel),
>
    decreases slots.len(),
{
    if slots.len() == 0 {
        seq![]
    } else {
        let rest = declared_values(pool, msg, slots.drop_last());
        match slots.last().1 {
            SlotModel::Value(v) => if entry_by_number(fields_of(pool, msg), slots.last().0) is Some {
                rest.push((slots.last().0, v))
            } else {
                rest
            },
            SlotModel::Unknown(_) => rest,
        }
    }
}

impl DynamicMessage {
    /// The set fields with their values, in ascending field-number order.
    pub fn fields(&self) -> (r: Vec<(FieldDescriptor, Value)>)
        requires
            self.wf(),
        ensures
            r@.len() == declared_values(self.model().pool, self.model().index, self.model().slots).len(),
            forall|i: int|
                0 <= i < r@.len() ==> (#[trigger] r@[i]).0.entry().number == declared_values(
                    self.model().pool,
                    self.model().index,
                    self.model().slots,
                )[i].0 && r@[i].1.model() == declared_values(
                    self.model().pool,
                    self.model().index,
                    self.model().slots,
                )[i].1,
            forall|i: int|
                0 <= i < r@.len() ==> belongs(self.model(), &(#[trigger] r@[i]).0) && slot_get(
                    self.model().slots,
                    r@[i].0.entry().number,
                ) == Some(SlotModel::Value(r@[i].1.model())),
    {
        proof {
            self.lemma_model();
            lemma_slot_models_len(self.fields@);
            lemma_slot_get_index(self.model().slots, 0);
        }
        let mut out: Vec<(FieldDescriptor, Value)> = Vec::new();
        let mut i: usize = 0;
        while i < self.fields.len()
            invariant
                i <= self.fields@.len(),
                self.wf(),
                slot_models(self.fields@).len() == self.fields@.len(),
                forall|k: int|
                    0 <= k < self.fields@.len() ==> #[trigger] slot_models(self.fields@)[k] == (
                    self.fields@[k].0,
                    self.fields@[k].1.model(),
                ),
                self.model().slots == slot_models(self.fields@),
                forall|k: int|
                    0 <= k < out@.len() ==> belongs(self.model(), &(#[trigger] out@[k]).0)
                        && slot_get(self.model().slots, out@[k].0.entry().number) == Some(
                        SlotModel::Value(out@[k].1.model()),
                    ),
                out@.len() == declared_values(
                    self.model().pool,
                    self.model().index,
                    self.model().slots.take(i as int),
                ).len(),
                forall|k: int|
                    0 <= k < out@.len() ==> (#[trigger] out@[k]).0.entry().number == declared_values(
                        self.model().pool,
                        self.model().index,
                        self.model().slots.take(i as int),
                    )[k].0 && out@[k].1.model() == declared_values(
                        self.model().pool,
                        self.model().index,
                        self.model().slots.take(i as int),
                    )[k].1,
            decreases self.fields@.len() - i,
        {
            proof {
                assert(self.model().slots.take(i + 1).drop_last() =~= self.model().slots.take(
                    i as int,
                ));
                assert(self.model().slots.take(i + 1).last() == self.model().slots[i as int]);
            }
            let n = self.fields[i].0;
            match &self.fields[i].1 {
                Slot::Value(v) => {
                    match self.desc_field_numbered(n) {
                        Some(f) => {
                            proof {
                                lemma_slot_get_index(self.model().slots, n);
                                assert(self.model().slots[i as int].0 == n);
                                lemma_entry_by_number(
                                    fields_of(self.model().pool, self.model().index),
                                    n,
                                );
                            }
                            let ghost before = out@;
                            out.push((f, v.duplicate()));
                            proof {
                                assert forall|k: int| 0 <= k < out@.len() implies belongs(
                                    self.model(),
                                    &(#[trigger] out@[k]).0,
                                ) && slot_get(self.model().slots, out@[k].0.entry().number) == Some(
                                    SlotModel::Value(out@[k].1.model()),
                                ) by {
                                    if k < before.len() {
                                        assert(out@[k] == before[k]);
                                    }
                                }
                            }
                        },
                        None => {},
                    }
                },
                Slot::Unknown(_) => {},
            }
            i = i + 1;
        }
        proof {
            assert(self.model().slots.take(i as int) =~= self.model().slots);
        }
        out
    }

    /// Whether declared field `f` is listed by [`Self::iter_with_options`]:
    /// a value is stored for it, or defaults are included.
    pub open spec fn listed(self, f: FieldEntry, include_default: bool) -> bool {
        include_default || (slot_get(self.model().slots, f.number) matches Some(SlotModel::Value(_)))
    }

    /// The declared fields with their values: those with a stored value,
    /// and with `include_default` the others with what they read as; in
    /// declaration order with `index_order`, else in ascending number order.
    pub fn iter_with_options(&self, include_default: bool, index_order: bool) -> (r: Vec<
        (FieldDescriptor, Value),
    >)
        requires
            self.wf(),
        ensures
            forall|i: int|
                0 <= i < r@.len() ==> belongs(self.model(), &(#[trigger] r@[i]).0) && self.listed(
                    r@[i].0.entry(),
                    include_default,
                ) && r@[i].1.model() == self.read(r@[i].0.entry()),
            forall|j: int|
                0 <= j < fields_of(self.model().pool, self.model().index).len() && self.listed(
                    #[trigger] fields_of(self.model().pool, self.model().index)[j],
                    include_default,
                ) ==> exists|i: int| 0 <= i < r@.len() && r@[i].0.index() == j,
            index_order ==> forall|i: int, k: int|
                0 <= i < k < r@.len() ==> (#[trigger] r@[i]).0.index() < (#[trigger] r@[k]).0.index(),
            !index_order ==> forall|i: int, k: int|
                0 <= i < k < r@.len() ==> (#[trigger] r@[i]).0.entry().number < (#[trigger] r@[k]).0.entry().number,
    {
        proof {
            self.lemma_model();
        }
        let fds = self.desc.fields();
        let _p = self.desc.pool_ref().inner_ref();
        let _i = self.desc.idx();
        let ghost pool = self.model().pool;
        let ghost idx = self.model().index;
        proof {
            assert(pool.messages@[idx as int].wf_in(pool.files@.len(), pool.messages@.len(), pool.enums@.len()));
        }
        let mut out: Vec<(FieldDescriptor, Value)> = Vec::new();
        let mut j: usize = 0;
        while j < fds.len()
            invariant
                j <= fds@.len(),
                self.wf(),
                pool == self.model().pool,
                idx == self.model().index,
                fds@.len() == fields_of(pool, idx).len(),
                forall|q: int| 0 <= q < fds@.len() ==> (#[trigger] fds@[q]).pool_view() == pool && fds@[q].message() == idx && fds@[q].index() == q,
                forall|a: int, b: int| 0 <= a < b < fields_of(pool, idx).len() ==> #[trigger] fields_of(pool, idx)[a].number != #[trigger] fields_of(pool, idx)[b].number,
                forall|i: int|
                    0 <= i < out@.len() ==> belongs(self.model(), &(#[trigger] out@[i]).0) && self.listed(
                        out@[i].0.entry(),
                        include_default,
                    ) && out@[i].1.model() == self.read(out@[i].0.entry()) && out@[i].0.index() < j,
                forall|q: int|
                    0 <= q < j && self.listed(#[trigger] fields_of(pool, idx)[q], include_default)
                        ==> exists|i: int| 0 <= i < out@.len() && out@[i].0.index() == q,
                index_order ==> forall|i: int, k: int|
                    0 <= i < k < out@.len() ==> (#[trigger] out@[i]).0.index() < (#[trigger] out@[k]).0.index(),
                !index_order ==> forall|i: int, k: int|
                    0 <= i < k < out@.len() ==> (#[trigger] out@[i]).0.entry().number < (#[trigger] out@[k]).0.entry().number,
            decreases fds@.len() - j,
        {
            let fd = fds[j].clone_handle();
            assert(fd.entry() == fields_of(pool, idx)[j as int]);
            let stored = self.value_at(fd.number()).is_some();
            if stored || include_default {
                let v = self.get_field(&fd);
                let ghost before = out@;
                if index_order {
                    out.push((fd, v));
                    proof {
                        assert forall|q: int| 0 <= q < j + 1 && self.listed(#[trigger] fields_of(pool, idx)[q], include_default)
                            implies exists|i: int| 0 <= i < out@.len() && out@[i].0.index() == q by {
                            if q < j {
                                let i = choose|i: int| 0 <= i < before.len() && before[i].0.index() == q;
                                assert(out@[i] == before[i]);
                            } else {
                                assert(out@[before.len() as int].0.index() == q);
                            }
                        }
                    }
                } else {
                    let n = fd.number();
                    let mut p: usize = 0;
                    while p < out.len() && out[p].0.number() < n
                        invariant
                            p <= out@.len(),
                            forall|i: int| 0 <= i < p ==> (#[trigger] out@[i]).0.entry().number < n,
                        decreases out@.len() - p,
                    {
                        p = p + 1;
                    }
                    proof {
                        if p < out@.len() {
                            let q = out@[p as int].0.index();
                            assert(fields_of(pool, idx)[q as int] == out@[p as int].0.entry());
                            assert(q < j);
                            assert(out@[p as int].0.entry().number != n);
                        }
                    }
                    out.insert(p, (fd, v));
                    proof {
                        assert forall|i: int, k: int| 0 <= i < k < out@.len() implies (#[trigger] out@[i]).0.entry().number < (#[trigger] out@[k]).0.entry().number by {
                            if k < p {
                                assert(out@[i] == before[i] && out@[k] == before[k]);
                            } else if k == p {
                                assert(out@[i] == before[i]);
                            } else if i == p {
                                assert(out@[k] == before[k - 1]);
                                if k - 1 > p {
                                    assert(before[p as int].0.entry().number < before[k - 1].0.entry().number);
                                }
                            } else if i < p {
                                assert(out@[i] == before[i] && out@[k] == before[k - 1]);
                            } else {
                                assert(out@[i] == before[i - 1] && out@[k] == before[k - 1]);
                            }
                        }
                        assert forall|i: int| 0 <= i < out@.len() implies belongs(self.model(), &(#[trigger] out@[i]).0) && self.listed(
                            out@[i].0.entry(),
                            include_default,
                        ) && out@[i].1.model() == self.read(out@[i].0.entry()) && out@[i].0.index() < j + 1 by {
                            if i < p {
                                assert(out@[i] == before[i]);
                            } else if i > p {
                                assert(out@[i] == before[i - 1]);
                            }
                        }
                        assert forall|q: int| 0 <= q < j + 1 && self.listed(#[trigger] fields_of(pool, idx)[q], include_default)
                            implies exists|i: int| 0 <= i < out@.len() && out@[i].0.index() == q by {
                            if q < j {
                                let i = choose|i: int| 0 <= i < before.len() && before[i].0.index() == q;
                                if i < p {
                                    assert(out@[i] == before[i]);
                                } else {
                                    assert(out@[i + 1] == before[i]);
                                }
                            } else {
                                assert(out@[p as int].0.index() == q);
                            }
                        }
                    }
                }
            } else {
                proof {
                    assert forall|q: int| 0 <= q < j + 1 && self.listed(#[trigger] fields_of(pool, idx)[q], include_default)
                        implies exists|i: int| 0 <= i < out@.len() && out@[i].0.index() == q by {
                        if q == j {
                            assert(!self.listed(fields_of(pool, idx)[q], include_default));
                        }
                    }
                }
            }
            j = j + 1;
        }
        out
    }

    /// Copies of the unknown fields kept, by field number, ascending.
    pub fn unknown_fields(&self) -> (r: Vec<(u32, UnknownFieldSet)>)
        requires
            self.wf(),
        ensures
            forall|i: int|
                0 <= i < r@.len() ==> slot_get(self.model().slots, (#[trigger] r@[i]).0) == Some(
                    SlotModel::Unknown(r@[i].1.model()),
                ),
            forall|m: u32|
                (#[trigger] slot_get(self.model().slots, m) matches Some(SlotModel::Unknown(_)))
                    ==> exists|i: int| 0 <= i < r@.len() && #[trigger] r@[i].0 == m,
    {
        proof {
            self.lemma_model();
            lemma_slot_models_len(self.fields@);
        }
        let mut out: Vec<(u32, UnknownFieldSet)> = Vec::new();
        let mut i: usize = 0;
        while i < self.fields.len()
            invariant
                i <= self.fields@.len(),
                self.wf(),
                slot_models(self.fields@).len() == self.fields@.len(),
                forall|k: int|
                    0 <= k < self.fields@.len() ==> #[trigger] slot_models(self.fields@)[k] == (
                    self.fields@[k].0,
                    self.fields@[k].1.model(),
                ),
                self.model().slots == slot_models(self.fields@),
                forall|k: int|
                    0 <= k < out@.len() ==> slot_get(self.model().slots, (#[trigger] out@[k]).0)
                        == Some(SlotModel::Unknown(out@[k].1.model())),
                forall|j: int|
                    0 <= j < i && (#[trigger] self.fields@[j]).1 is Unknown ==> exists|k: int|
                        0 <= k < out@.len() && #[trigger] out@[k].0 == self.fields@[j].0,
            decreases self.fields@.len() - i,
        {
            let n = self.fields[i].0;
            let ghost before = out@;
            match &self.fields[i].1 {
                Slot::Unknown(u) => {
                    proof {
                        lemma_slot_get_index(self.model().slots, n);
                        assert(self.model().slots[i as int].0 == n);
                    }
                    out.push((n, u.duplicate()));
                    proof {
                        assert(out@[before.len() as int].0 == n);
                    }
                },
                Slot::Value(_) => {},
            }
            proof {
                assert forall|j: int|
                    0 <= j < i + 1 && (#[trigger] self.fields@[j]).1 is Unknown implies exists|k: int|
                        0 <= k < out@.len() && #[trigger] out@[k].0 == self.fields@[j].0 by {
                    if j < i {
                        let k = choose|k: int| 0 <= k < before.len() && #[trigger] before[k].0 == self.fields@[j].0;
                        assert(out@[k] == before[k]);
                    } else {
                        assert(out@[before.len() as int].0 == n);
                    }
                }
            }
            i = i + 1;
        }
        proof {
            assert forall|m: u32|
                (#[trigger] slot_get(self.model().slots, m) matches Some(SlotModel::Unknown(_)))
                    implies exists|k: int| 0 <= k < out@.len() && #[trigger] out@[k].0 == m by {
                lemma_slot_get_index(self.model().slots, m);
                if forall|j: int| 0 <= j < self.model().slots.len() ==> #[trigger] self.model().slots[j].0 != m {
                } else {
                    let j = choose|j: int| 0 <= j < self.model().slots.len() && #[trigger] self.model().slots[j].0 == m;
                    assert(self.model().slots[j] == (self.fields@[j].0, self.fields@[j].1.model()));
                    assert(self.fields@[j].1 is Unknown);
                }
            }
        }
        out
    }

    /// Remove and return the unknown fields kept, by field number.
    pub fn drain_unknown_fields(&mut self) -> (r: Vec<(u32, UnknownFieldSet)>)
        requires
            old(self).wf(),
        ensures
            final(self).wf(),
            final(self).model().pool == old(self).model().pool,
            final(self).model().index == old(self).model().index,
            forall|i: int|
                0 <= i < r@.len() ==> slot_get(old(self).model().slots, (#[trigger] r@[i]).0) == Some(
                    SlotModel::Unknown(r@[i].1.model()),
                ),
            forall|m: u32|
                #[trigger] slot_get(final(self).model().slots, m) == match slot_get(
                    old(self).model().slots,
                    m,
                ) {
                    Some(SlotModel::Unknown(_)) => None,
                    other => other,
                },
    {
        let r = self.unknown_fields();
        let mut i: usize = 0;
        proof {
            self.lemma_model();
        }
        while i < r.len()
            invariant
                i <= r@.len(),
                numbers_sorted(slot_models(self.fields@)),
                self.desc == old(self).desc,
                forall|k: int|
                    0 <= k < r@.len() ==> slot_get(old(self).model().slots, (#[trigger] r@[k]).0)
                        == Some(SlotModel::Unknown(r@[k].1.model())),
                forall|m: u32|
                    #[trigger] slot_get(slot_models(self.fields@), m) == if exists|k: int|
                        0 <= k < i && #[trigger] r@[k].0 == m {
                        None
                    } else {
                        slot_get(old(self).model().slots, m)
                    },
            decreases r@.len() - i,
        {
            take_slot(&mut self.fields, r[i].0);
            proof {
                assert forall|m: u32| #[trigger] slot_get(slot_models(self.fields@), m) == if exists|k: int|
                    0 <= k < i + 1 && #[trigger] r@[k].0 == m {
                    None
                } else {
                    slot_get(old(self).model().slots, m)
                } by {
                    if m == r@[i as int].0 {
                    } else if exists|k: int| 0 <= k < i + 1 && #[trigger] r@[k].0 == m {
                        let k = choose|k: int| 0 <= k < i + 1 && #[trigger] r@[k].0 == m;
                        assert(k < i);
                    }
                }
            }
            i = i + 1;
        }
        proof {
            self.lemma_model();
            assert forall|m: u32| #[trigger] slot_get(self.model().slots, m) == match slot_get(
                old(self).model().slots,
                m,
            ) {
                Some(SlotModel::Unknown(_)) => None,
                other => other,
            } by {
                if exists|k: int| 0 <= k < r@.len() && #[trigger] r@[k].0 == m {
                    let k = choose|k: int| 0 <= k < r@.len() && #[trigger] r@[k].0 == m;
                    assert(slot_get(old(self).model().slots, r@[k].0) == Some(SlotModel::Unknown(r@[k].1.model())));
                }
            }
        }
        r
    }
}

} // verus!
