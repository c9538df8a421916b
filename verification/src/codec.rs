//! Binary wire encoding of dynamic messages.
//!
//! Stored slots are written in ascending field-number order: a known
//! field by its declared kind (packed or one record per item for lists,
//! one length-delimited entry per pair for maps), unknown fields exactly
//! as they were read.

use vstd::prelude::*;

use crate::handles::{FieldDescriptor, MessageDescriptor};
use crate::message::{
    DynamicMessage, MessageModel, Slot, SlotModel, entry_by_number, field_is_map, fields_of,
    lemma_entry_by_number, lemma_slot_models_len, map_entry_kinds, map_kinds, slot_models,
};
use crate::pool::{Cardinality, KindRef, PoolInner};
use crate::pool_build::spec_is_packable;
use crate::value::{
    KeyModel, MapKey, UnknownField, UnknownFieldData, UnknownFieldSet, UnknownModel, Value,
    ValueModel, entry_models, lemma_entry_models_len, lemma_models_len, lemma_unknown_models_len, models_of,
    unknown_models,
};
use crate::wire::{
    WireType, encode_tag, encode_varint, put_fixed32, put_fixed64, spec_le32_bytes,
    spec_le64_bytes, spec_tag_value, spec_u32_of_int, spec_u64_of_int, spec_varint, spec_zigzag,
    u32_of_i32, u64_of_i64, zigzag32, zigzag64,
};

verus! {

/// The bytes of the tag for field `n` with wire type `w`.
pub open spec fn enc_tag(n: u32, w: WireType) -> Seq<u8> {
    spec_varint(spec_tag_value(n as nat, w))
}

/// The wire type a kind is written with.
pub open spec fn wire_for(k: KindRef) -> WireType {
    match k {
        KindRef::Fixed64 | KindRef::Sfixed64 | KindRef::Double => WireType::Fixed64,
        KindRef::Fixed32 | KindRef::Sfixed32 | KindRef::Float => WireType::Fixed32,
        KindRef::String | KindRef::Bytes | KindRef::Message(_) => WireType::LengthDelimited,
        _ => WireType::Varint,
    }
}

/// A byte string prefixed with its varint length.
pub open spec fn delimited(b: Seq<u8>) -> Seq<u8> {
    spec_varint(b.len()) + b
}

/// The bytes of an unknown field, tag included.
pub open spec fn enc_unknown(u: UnknownModel) -> Seq<u8>
    decreases u,
{
    match u {
        UnknownModel::Varint(n, v) => enc_tag(n, WireType::Varint) + spec_varint(v as nat),
        UnknownModel::Fixed64(n, v) => enc_tag(n, WireType::Fixed64) + spec_le64_bytes(v as nat),
        UnknownModel::Fixed32(n, v) => enc_tag(n, WireType::Fixed32) + spec_le32_bytes(v as nat),
        UnknownModel::LengthDelimited(n, b) => enc_tag(n, WireType::LengthDelimited) + delimited(b),
        UnknownModel::Group(n, g) => enc_tag(n, WireType::StartGroup) + enc_unknowns(g) + enc_tag(
            n,
            WireType::EndGroup,
        ),
    }
}

/// The bytes of a sequence of unknown fields, in order.
pub open spec fn enc_unknowns(s: Seq<UnknownModel>) -> Seq<u8>
    decreases s,
{
    if s.len() == 0 {
        seq![]
    } else {
        enc_unknown(s[0]) + enc_unknowns(s.subrange(1, s.len() as int))
    }
}

/// The payload (no tag) of a single value of kind `k`; empty when the
/// value is not of that kind.
pub open spec fn payload(k: KindRef, v: ValueModel) -> Seq<u8>
    decreases v, 0int,
{
    match (k, v) {
        (KindRef::Bool, ValueModel::Bool(b)) => spec_varint(if b { 1 } else { 0 }),
        (KindRef::Int32, ValueModel::I32(x)) => spec_varint(spec_u64_of_int(x as int)),
        (KindRef::Int64, ValueModel::I64(x)) => spec_varint(spec_u64_of_int(x as int)),
        (KindRef::Uint32, ValueModel::U32(x)) => spec_varint(x as nat),
        (KindRef::Uint64, ValueModel::U64(x)) => spec_varint(x as nat),
        (KindRef::Sint32, ValueModel::I32(x)) => spec_varint(spec_zigzag(x as int)),
        (KindRef::Sint64, ValueModel::I64(x)) => spec_varint(spec_zigzag(x as int)),
        (KindRef::Enum(_), ValueModel::EnumNumber(x)) => spec_varint(spec_u64_of_int(x as int)),
        (KindRef::Fixed64, ValueModel::U64(x)) => spec_le64_bytes(x as nat),
        (KindRef::Sfixed64, ValueModel::I64(x)) => spec_le64_bytes(spec_u64_of_int(x as int)),
        (KindRef::Double, ValueModel::F64(x)) => spec_le64_bytes(x as nat),
        (KindRef::Fixed32, ValueModel::U32(x)) => spec_le32_bytes(x as nat),
        (KindRef::Sfixed32, ValueModel::I32(x)) => spec_le32_bytes(spec_u32_of_int(x as int)),
        (KindRef::Float, ValueModel::F32(x)) => spec_le32_bytes(x as nat),
        (KindRef::String, ValueModel::Str(s)) => delimited(vstd::utf8::encode_utf8(s)),
        (KindRef::Bytes, ValueModel::Bytes(b)) => delimited(b),
        (KindRef::Message(_), ValueModel::Message(m)) => delimited(enc_msg(m)),
        _ => seq![],
    }
}

/// One tagged value.
pub open spec fn enc_singular(n: u32, k: KindRef, v: ValueModel) -> Seq<u8>
    decreases v, 1int,
{
    enc_tag(n, wire_for(k)) + payload(k, v)
}

/// Payloads of list items, concatenated (the body of a packed list).
pub open spec fn payloads(k: KindRef, items: Seq<ValueModel>) -> Seq<u8>
    decreases items, 0int,
{
    if items.len() == 0 {
        seq![]
    } else {
        payload(k, items[0]) + payloads(k, items.subrange(1, items.len() as int))
    }
}

/// One tagged record per list item.
pub open spec fn singulars(n: u32, k: KindRef, items: Seq<ValueModel>) -> Seq<u8>
    decreases items, 0int,
{
    if items.len() == 0 {
        seq![]
    } else {
        enc_singular(n, k, items[0]) + singulars(n, k, items.subrange(1, items.len() as int))
    }
}

/// A map key written as field 1 of its entry.
pub open spec fn enc_key(kk: KindRef, key: KeyModel) -> Seq<u8> {
    enc_tag(1, wire_for(kk)) + match (kk, key) {
        (KindRef::Bool, KeyModel::Bool(b)) => spec_varint(if b { 1 } else { 0 }),
        (KindRef::Int32, KeyModel::I32(x)) => spec_varint(spec_u64_of_int(x as int)),
        (KindRef::Int64, KeyModel::I64(x)) => spec_varint(spec_u64_of_int(x as int)),
        (KindRef::Uint32, KeyModel::U32(x)) => spec_varint(x as nat),
        (KindRef::Uint64, KeyModel::U64(x)) => spec_varint(x as nat),
        (KindRef::Sint32, KeyModel::I32(x)) => spec_varint(spec_zigzag(x as int)),
        (KindRef::Sint64, KeyModel::I64(x)) => spec_varint(spec_zigzag(x as int)),
        (KindRef::Fixed64, KeyModel::U64(x)) => spec_le64_bytes(x as nat),
        (KindRef::Sfixed64, KeyModel::I64(x)) => spec_le64_bytes(spec_u64_of_int(x as int)),
        (KindRef::Fixed32, KeyModel::U32(x)) => spec_le32_bytes(x as nat),
        (KindRef::Sfixed32, KeyModel::I32(x)) => spec_le32_bytes(spec_u32_of_int(x as int)),
        (KindRef::String, KeyModel::Str(s)) => delimited(vstd::utf8::encode_utf8(s)),
        _ => seq![],
    }
}

/// One length-delimited entry record per map entry.
pub open spec fn enc_entries(n: u32, kk: KindRef, vk: KindRef, es: Seq<(KeyModel, ValueModel)>) -> Seq<
    u8,
>
    decreases es, 0int,
{
    if es.len() == 0 {
        seq![]
    } else {
        enc_tag(n, WireType::LengthDelimited) + delimited(
            enc_key(kk, es[0].0) + enc_singular(2, vk, es[0].1),
        ) + enc_entries(n, kk, vk, es.subrange(1, es.len() as int))
    }
}

/// The bytes of a known field's stored value.
pub open spec fn enc_field(pool: PoolInner, f: crate::pool::FieldEntry, v: ValueModel) -> Seq<u8>
    decreases v, 2int,
{
    if field_is_map(pool, f) {
        match (v, map_kinds(pool, f)) {
            (ValueModel::Mapping(es), Some((kk, vk))) => enc_entries(f.number, kk, vk, es),
            _ => seq![],
        }
    } else if f.cardinality == Cardinality::Repeated {
        match v {
            ValueModel::List(items) => if items.len() == 0 {
                seq![]
            } else if f.is_packed && spec_is_packable(f.kind) {
                enc_tag(f.number, WireType::LengthDelimited) + delimited(payloads(f.kind, items))
            } else {
                singulars(f.number, f.kind, items)
            },
            _ => seq![],
        }
    } else {
        enc_singular(f.number, f.kind, v)
    }
}

/// The bytes of a slot table, in order; values of numbers the message
/// type does not declare are skipped.
pub open spec fn enc_slots(pool: PoolInner, msg: u32, s: Seq<(u32, SlotModel)>) -> Seq<u8>
    decreases s, 0int,
{
    if s.len() == 0 {
        seq![]
    } else {
        let head = match s[0].1 {
            SlotModel::Value(v) => match entry_by_number(fields_of(pool, msg), s[0].0) {
                Some(f) => enc_field(pool, f, v),
                None => seq![],
            },
            SlotModel::Unknown(us) => enc_unknowns(us),
        };
        head + enc_slots(pool, msg, s.subrange(1, s.len() as int))
    }
}

/// The wire encoding of a message.
pub open spec fn enc_msg(m: MessageModel) -> Seq<u8>
    decreases m, 0int,
{
    enc_slots(m.pool, m.index, m.slots)
}


// ── writing ─────────────────────────────────────────────────────────────

/// Append the tag for field `n` with wire type `w`.
fn put_tag(n: u32, w: WireType, out: &mut Vec<u8>)
    ensures
        final(out)@ == old(out)@ + enc_tag(n, w),
{
    let value: u64 = (n as u64) * 8 + w.code() as u64;
    encode_varint(value, out);
}

/// Append the bytes of `b`.
fn put_bytes(b: &[u8], out: &mut Vec<u8>)
    ensures
        final(out)@ == old(out)@ + b@,
{
    let ghost start = out@;
    let mut i: usize = 0;
    while i < b.len()
        invariant
            i <= b@.len(),
            out@ == start + b@.take(i as int),
        decreases b@.len() - i,
    {
        out.push(b[i]);
        i = i + 1;
        assert(out@ =~= start + b@.take(i as int));
    }
    assert(b@.take(b@.len() as int) =~= b@);
}

/// Append `b` prefixed with its varint length.
fn put_delimited(b: &[u8], out: &mut Vec<u8>)
    ensures
        final(out)@ == old(out)@ + delimited(b@),
{
    encode_varint(b.len() as u64, out);
    put_bytes(b, out);
    assert(final(out)@ =~= old(out)@ + delimited(b@));
}

/// Append the encoding of one unknown field.
fn write_unknown(u: &UnknownField, out: &mut Vec<u8>)
    ensures
        final(out)@ == old(out)@ + enc_unknown(u.model()),
    decreases u, 0int,
{
    match &u.data {
        UnknownFieldData::Varint(v) => {
            put_tag(u.number, WireType::Varint, out);
            encode_varint(*v, out);
        },
        UnknownFieldData::Fixed64(v) => {
            put_tag(u.number, WireType::Fixed64, out);
            put_fixed64(*v, out);
        },
        UnknownFieldData::Fixed32(v) => {
            put_tag(u.number, WireType::Fixed32, out);
            put_fixed32(*v, out);
        },
        UnknownFieldData::LengthDelimited(b) => {
            put_tag(u.number, WireType::LengthDelimited, out);
            put_delimited(b.as_slice(), out);
        },
        UnknownFieldData::Group(g) => {
            put_tag(u.number, WireType::StartGroup, out);
            proof {
                assert(decreases_to!(*u => u.data));
                assert(decreases_to!(u.data => u.data->Group_0));
            }
            write_unknowns_from(g, 0, out);
            proof {
                assert(unknown_models(g@).subrange(0, g@.len() as int) =~= unknown_models(g@)) by {
                    lemma_unknown_models_len(g@);
                }
            }
            put_tag(u.number, WireType::EndGroup, out);
        },
    }
    assert(final(out)@ =~= old(out)@ + enc_unknown(u.model()));
}

/// Append the encodings of `s[i..]`.
fn write_unknowns_from(s: &Vec<UnknownField>, i: usize, out: &mut Vec<u8>)
    requires
        i <= s@.len(),
    ensures
        final(out)@ == old(out)@ + enc_unknowns(
            unknown_models(s@).subrange(i as int, s@.len() as int),
        ),
    decreases s, s@.len() - i,
{
    proof {
        lemma_unknown_models_len(s@);
    }
    let ghost ms = unknown_models(s@).subrange(i as int, s@.len() as int);
    if i == s.len() {
        assert(ms.len() == 0);
        return;
    }
    proof {
        assert(decreases_to!(*s => s@));
        assert(decreases_to!(s@ => s@[i as int]));
    }
    write_unknown(&s[i], out);
    write_unknowns_from(s, i + 1, out);
    proof {
        assert(ms[0] == s@[i as int].model());
        assert(ms.subrange(1, ms.len() as int) =~= unknown_models(s@).subrange(
            i + 1,
            s@.len() as int,
        ));
    }
    assert(final(out)@ =~= old(out)@ + enc_unknowns(ms));
}

/// Append the payload of one value of kind `k`.
fn write_payload(k: KindRef, v: &Value, out: &mut Vec<u8>)
    ensures
        final(out)@ == old(out)@ + payload(k, v.model()),
    decreases v, 1int,
{
    match (k, v) {
        (KindRef::Bool, Value::Bool(b)) => {
            encode_varint(if *b { 1 } else { 0 }, out);
        },
        (KindRef::Int32, Value::I32(x)) => {
            encode_varint(u64_of_i64(*x as i64), out);
        },
        (KindRef::Int64, Value::I64(x)) => {
            encode_varint(u64_of_i64(*x), out);
        },
        (KindRef::Uint32, Value::U32(x)) => {
            encode_varint(*x as u64, out);
        },
        (KindRef::Uint64, Value::U64(x)) => {
            encode_varint(*x, out);
        },
        (KindRef::Sint32, Value::I32(x)) => {
            encode_varint(zigzag32(*x) as u64, out);
        },
        (KindRef::Sint64, Value::I64(x)) => {
            encode_varint(zigzag64(*x), out);
        },
        (KindRef::Enum(_), Value::EnumNumber(x)) => {
            encode_varint(u64_of_i64(*x as i64), out);
        },
        (KindRef::Fixed64, Value::U64(x)) => {
            put_fixed64(*x, out);
        },
        (KindRef::Sfixed64, Value::I64(x)) => {
            put_fixed64(u64_of_i64(*x), out);
        },
        (KindRef::Double, Value::F64(x)) => {
            put_fixed64(*x, out);
        },
        (KindRef::Fixed32, Value::U32(x)) => {
            put_fixed32(*x, out);
        },
        (KindRef::Sfixed32, Value::I32(x)) => {
            put_fixed32(u32_of_i32(*x), out);
        },
        (KindRef::Float, Value::F32(x)) => {
            put_fixed32(*x, out);
        },
        (KindRef::String, Value::String(s)) => {
            put_delimited(s.as_str().as_bytes(), out);
        },
        (KindRef::Bytes, Value::Bytes(b)) => {
            put_delimited(b.as_slice(), out);
        },
        (KindRef::Message(_), Value::Message(m)) => {
            let mut inner: Vec<u8> = Vec::new();
            proof {
                assert(decreases_to!(*v => v->Message_0));
            }
            write_msg(m, &mut inner);
            put_delimited(inner.as_slice(), out);
            proof {
                assert(inner@ =~= Seq::<u8>::empty() + enc_msg(m.model()));
            }
        },
        _ => {},
    }
}

/// Append one tagged value.
fn write_singular(n: u32, k: KindRef, v: &Value, out: &mut Vec<u8>)
    ensures
        final(out)@ == old(out)@ + enc_singular(n, k, v.model()),
    decreases v, 2int,
{
    put_tag(n, wire_kind(k), out);
    write_payload(k, v, out);
    assert(final(out)@ =~= old(out)@ + enc_singular(n, k, v.model()));
}

fn wire_kind(k: KindRef) -> (r: WireType)
    ensures
        r == wire_for(k),
{
    match k {
        KindRef::Fixed64 | KindRef::Sfixed64 | KindRef::Double => WireType::Fixed64,
        KindRef::Fixed32 | KindRef::Sfixed32 | KindRef::Float => WireType::Fixed32,
        KindRef::String | KindRef::Bytes | KindRef::Message(_) => WireType::LengthDelimited,
        _ => WireType::Varint,
    }
}

/// Append the payloads of `items[i..]`.
fn write_payloads_from(k: KindRef, items: &Vec<Value>, i: usize, out: &mut Vec<u8>)
    requires
        i <= items@.len(),
    ensures
        final(out)@ == old(out)@ + payloads(
            k,
            models_of(items@).subrange(i as int, items@.len() as int),
        ),
    decreases items, items@.len() - i,
{
    proof {
        lemma_models_len(items@);
    }
    let ghost ms = models_of(items@).subrange(i as int, items@.len() as int);
    if i == items.len() {
        assert(ms.len() == 0);
        return;
    }
    proof {
        assert(decreases_to!(*items => items@));
        assert(decreases_to!(items@ => items@[i as int]));
    }
    write_payload(k, &items[i], out);
    write_payloads_from(k, items, i + 1, out);
    proof {
        assert(ms[0] == items@[i as int].model());
        assert(ms.subrange(1, ms.len() as int) =~= models_of(items@).subrange(
            i + 1,
            items@.len() as int,
        ));
    }
    assert(final(out)@ =~= old(out)@ + payloads(k, ms));
}

/// Append one tagged record per item of `items[i..]`.
fn write_singulars_from(n: u32, k: KindRef, items: &Vec<Value>, i: usize, out: &mut Vec<u8>)
    requires
        i <= items@.len(),
    ensures
        final(out)@ == old(out)@ + singulars(
            n,
            k,
            models_of(items@).subrange(i as int, items@.len() as int),
        ),
    decreases items, items@.len() - i,
{
    proof {
        lemma_models_len(items@);
    }
    let ghost ms = models_of(items@).subrange(i as int, items@.len() as int);
    if i == items.len() {
        assert(ms.len() == 0);
        return;
    }
    proof {
        assert(decreases_to!(*items => items@));
        assert(decreases_to!(items@ => items@[i as int]));
    }
    write_singular(n, k, &items[i], out);
    write_singulars_from(n, k, items, i + 1, out);
    proof {
        assert(ms[0] == items@[i as int].model());
        assert(ms.subrange(1, ms.len() as int) =~= models_of(items@).subrange(
            i + 1,
            items@.len() as int,
        ));
    }
    assert(final(out)@ =~= old(out)@ + singulars(n, k, ms));
}

/// Append a map key as field 1 of its entry.
fn write_key(kk: KindRef, key: &MapKey, out: &mut Vec<u8>)
    ensures
        final(out)@ == old(out)@ + enc_key(kk, key.model()),
{
    put_tag(1, wire_kind(kk), out);
    let ghost mid = out@;
    match (kk, key) {
        (KindRef::Bool, MapKey::Bool(b)) => {
            encode_varint(if *b { 1 } else { 0 }, out);
        },
        (KindRef::Int32, MapKey::I32(x)) => {
            encode_varint(u64_of_i64(*x as i64), out);
        },
        (KindRef::Int64, MapKey::I64(x)) => {
            encode_varint(u64_of_i64(*x), out);
        },
        (KindRef::Uint32, MapKey::U32(x)) => {
            encode_varint(*x as u64, out);
        },
        (KindRef::Uint64, MapKey::U64(x)) => {
            encode_varint(*x, out);
        },
        (KindRef::Sint32, MapKey::I32(x)) => {
            encode_varint(zigzag32(*x) as u64, out);
        },
        (KindRef::Sint64, MapKey::I64(x)) => {
            encode_varint(zigzag64(*x), out);
        },
        (KindRef::Fixed64, MapKey::U64(x)) => {
            put_fixed64(*x, out);
        },
        (KindRef::Sfixed64, MapKey::I64(x)) => {
            put_fixed64(u64_of_i64(*x), out);
        },
        (KindRef::Fixed32, MapKey::U32(x)) => {
            put_fixed32(*x, out);
        },
        (KindRef::Sfixed32, MapKey::I32(x)) => {
            put_fixed32(u32_of_i32(*x), out);
        },
        (KindRef::String, MapKey::String(s)) => {
            put_delimited(s.as_str().as_bytes(), out);
        },
        _ => {},
    }
    assert(final(out)@ =~= old(out)@ + enc_key(kk, key.model()));
}

/// Append one entry record per map entry of `es[i..]`.
fn write_entries_from(
    n: u32,
    kk: KindRef,
    vk: KindRef,
    es: &Vec<(MapKey, Value)>,
    i: usize,
    out: &mut Vec<u8>,
)
    requires
        i <= es@.len(),
    ensures
        final(out)@ == old(out)@ + enc_entries(
            n,
            kk,
            vk,
            entry_models(es@).subrange(i as int, es@.len() as int),
        ),
    decreases es, es@.len() - i,
{
    proof {
        lemma_entry_models_len(es@);
    }
    let ghost ms = entry_models(es@).subrange(i as int, es@.len() as int);
    if i == es.len() {
        assert(ms.len() == 0);
        return;
    }
    proof {
        assert(decreases_to!(*es => es@));
        assert(decreases_to!(es@ => es@[i as int]));
        assert(decreases_to!(es@[i as int] => es@[i as int].1));
    }
    let mut inner: Vec<u8> = Vec::new();
    write_key(kk, &es[i].0, &mut inner);
    write_singular(2, vk, &es[i].1, &mut inner);
    put_tag(n, WireType::LengthDelimited, out);
    put_delimited(inner.as_slice(), out);
    write_entries_from(n, kk, vk, es, i + 1, out);
    proof {
        assert(ms[0] == (es@[i as int].0.model(), es@[i as int].1.model()));
        assert(inner@ =~= enc_key(kk, ms[0].0) + enc_singular(2, vk, ms[0].1));
        assert(ms.subrange(1, ms.len() as int) =~= entry_models(es@).subrange(
            i + 1,
            es@.len() as int,
        ));
    }
    assert(final(out)@ =~= old(out)@ + enc_entries(n, kk, vk, ms));
}

/// Append the bytes of a known field's stored value.
fn write_field(field: &FieldDescriptor, v: &Value, out: &mut Vec<u8>)
    ensures
        final(out)@ == old(out)@ + enc_field(field.pool_view(), field.entry(), v.model()),
    decreases v, 3int,
{
    let number = field.number();
    let kind = field.kind_ref();
    if field.is_map() {
        match v {
            Value::Mapping(es) => {
                match map_entry_kinds(field) {
                    Some((kk, vk)) => {
                        proof {
                            assert(decreases_to!(*v => v->Mapping_0));
                        }
                        write_entries_from(number, kk, vk, es, 0, out);
                        proof {
                            lemma_entry_models_len(es@);
                            assert(entry_models(es@).subrange(0, es@.len() as int) =~= entry_models(
                                es@,
                            ));
                        }
                    },
                    None => {},
                }
            },
            _ => {},
        }
        assert(final(out)@ =~= old(out)@ + enc_field(field.pool_view(), field.entry(), v.model()));
        return;
    }
    if field.cardinality() == Cardinality::Repeated {
        match v {
            Value::List(items) => {
                proof {
                    lemma_models_len(items@);
                    assert(models_of(items@).subrange(0, items@.len() as int) =~= models_of(
                        items@,
                    ));
                    assert(decreases_to!(*v => v->List_0));
                }
                if items.len() == 0 {
                } else if field.is_packed() && crate::pool_build::is_packable_kind(kind) {
                    let mut body: Vec<u8> = Vec::new();
                    write_payloads_from(kind, items, 0, &mut body);
                    put_tag(number, WireType::LengthDelimited, out);
                    put_delimited(body.as_slice(), out);
                    proof {
                        assert(body@ =~= payloads(kind, models_of(items@)));
                    }
                } else {
                    write_singulars_from(number, kind, items, 0, out);
                }
            },
            _ => {},
        }
        assert(final(out)@ =~= old(out)@ + enc_field(field.pool_view(), field.entry(), v.model()));
        return;
    }
    write_singular(number, kind, v, out);
}

/// The declared field of `desc` numbered `n`.
pub(crate) fn field_for(desc: &MessageDescriptor, n: u32) -> (r: Option<FieldDescriptor>)
    ensures
        match entry_by_number(fields_of(desc.pool_view(), desc.index()), n) {
            Some(e) => r is Some && r->0.entry() == e && r->0.pool_view() == desc.pool_view()
                && r->0.message() == desc.index(),
            None => r is None,
        },
{
    let r = desc.get_field_by_number(n);
    proof {
        lemma_entry_by_number(fields_of(desc.pool_view(), desc.index()), n);
        if r is Some {
            let fs = fields_of(desc.pool_view(), desc.index());
            let j = choose|j: int|
                0 <= j < fs.len() && #[trigger] fs[j].number == n && entry_by_number(fs, n) == Some(
                    fs[j],
                ) && forall|k: int| 0 <= k < j ==> #[trigger] fs[k].number != n;
            assert(j == r->0.index());
        }
    }
    r
}

pub(crate) fn wire_kind_pub(k: KindRef) -> (r: WireType)
    ensures
        r == wire_for(k),
{
    wire_kind(k)
}

/// Append the bytes of `fields[i..]`.
fn write_slots_from(desc: &MessageDescriptor, fields: &Vec<(u32, Slot)>, i: usize, out: &mut Vec<u8>)
    requires
        i <= fields@.len(),
    ensures
        final(out)@ == old(out)@ + enc_slots(
            desc.pool_view(),
            desc.index(),
            slot_models(fields@).subrange(i as int, fields@.len() as int),
        ),
    decreases fields, fields@.len() - i,
{
    proof {
        lemma_slot_models_len(fields@);
    }
    let ghost ms = slot_models(fields@).subrange(i as int, fields@.len() as int);
    if i == fields.len() {
        assert(ms.len() == 0);
        return;
    }
    proof {
        assert(ms[0] == (fields@[i as int].0, fields@[i as int].1.model()));
        assert(ms.subrange(1, ms.len() as int) =~= slot_models(fields@).subrange(
            i + 1,
            fields@.len() as int,
        ));
    }
    match &fields[i].1 {
        Slot::Value(v) => {
            match field_for(desc, fields[i].0) {
                Some(f) => {
                    proof {
                        assert(decreases_to!(*fields => fields@));
                        assert(decreases_to!(fields@ => fields@[i as int]));
                        assert(decreases_to!(fields@[i as int] => fields@[i as int].1));
                        assert(decreases_to!(fields@[i as int].1 => fields@[i as int].1->Value_0));
                    }
                    write_field(&f, v, out);
                },
                None => {},
            }
        },
        Slot::Unknown(us) => {
            write_unknowns_from(&us.items, 0, out);
            proof {
                lemma_unknown_models_len(us.items@);
                assert(unknown_models(us.items@).subrange(0, us.items@.len() as int)
                    =~= unknown_models(us.items@));
            }
        },
    }
    let ghost mid = out@;
    write_slots_from(desc, fields, i + 1, out);
    assert(final(out)@ =~= old(out)@ + enc_slots(desc.pool_view(), desc.index(), ms));
}

/// Append the encoding of a message.
fn write_msg(m: &DynamicMessage, out: &mut Vec<u8>)
    ensures
        final(out)@ == old(out)@ + enc_msg(m.model()),
    decreases m, 0int,
{
    proof {
        m.lemma_model();
        lemma_slot_models_len(m.fields@);
        assert(slot_models(m.fields@).subrange(0, m.fields@.len() as int) =~= slot_models(m.fields@));
        assert(decreases_to!(*m => m.fields));
    }
    write_slots_from(&m.desc, &m.fields, 0, out);
}

impl DynamicMessage {
    /// The wire encoding of the message.
    pub fn encode_to_vec(&self) -> (r: Vec<u8>)
        ensures
            r@ == enc_msg(self.model()),
    {
        let mut out: Vec<u8> = Vec::new();
        write_msg(self, &mut out);
        assert(out@ =~= enc_msg(self.model()));
        out
    }

    /// Append the wire encoding of the message to `buf`.
    pub fn encode(&self, buf: &mut Vec<u8>)
        ensures
            final(buf)@ == old(buf)@ + enc_msg(self.model()),
    {
        write_msg(self, buf);
    }

    /// Length in bytes of the wire encoding.
    pub fn encoded_len(&self) -> (r: usize)
        ensures
            r == enc_msg(self.model()).len(),
    {
        self.encode_to_vec().len()
    }
}

impl UnknownFieldSet {
    /// Append the encodings of the fields in the set, in arrival order.
    /// Each field carries its own number; `_number` is not read.
    pub fn encode(&self, _number: u32, buf: &mut Vec<u8>)
        ensures
            final(buf)@ == old(buf)@ + enc_unknowns(self.model()),
    {
        proof {
            lemma_unknown_models_len(self.items@);
            assert(unknown_models(self.items@).subrange(0, self.items@.len() as int) =~= self.model());
        }
        write_unknowns_from(&self.items, 0, buf);
    }

    /// Length in bytes of the encodings of the fields in the set.
    pub fn encoded_len(&self, _number: u32) -> (r: usize)
        ensures
            r == enc_unknowns(self.model()).len(),
    {
        let mut out: Vec<u8> = Vec::new();
        self.encode(_number, &mut out);
        assert(out@ =~= enc_unknowns(self.model()));
        out.len()
    }
}

} // verus!
