//! Decoding wire bytes into a [`DynamicMessage`].
//!
//! Known fields are read by their declared kind (singular fields keep the
//! last value read, list items accumulate, packed lists are unpacked, map
//! entries are inserted); fields the descriptor does not declare are kept
//! as unknown fields. Nested messages and groups are limited in depth.

use vstd::prelude::*;

use crate::codec::{field_for, wire_for, wire_kind_pub};
use crate::error::DecodeError;
use crate::handles::{FieldDescriptor, MessageDescriptor};
use crate::message::{
    DynamicMessage, MessageModel, Slot, SlotModel, add_unknown_map, belongs, entry_by_number,
    field_is_list, field_is_map, fields_of, insert_entry_map, kind_fits, map_entry_kinds,
    map_kinds, push_item_map, ready, set_map, slot_view, sorted_slots, value_fits, zero_of,
};
use crate::pool::{Cardinality, FieldEntry, KindRef, PoolInner};
use crate::value::{
    KeyModel, MapKey, UnknownField, UnknownFieldData, UnknownFieldSet, UnknownModel, Value,
    ValueModel,
};
use crate::wire::{
    WireType, decode_tag, decode_varint, get_fixed32, get_fixed64, i32_of_bits, spec_decode_tag,
    spec_decode_varint, spec_i32_of_bits, spec_i64_of_bits, spec_le32, spec_le64, spec_unzigzag,
    unzigzag32, unzigzag64,
};
use vstd::utf8::{decode_utf8, valid_utf8};

verus! {

/// Default nesting limit for messages and groups (the limit of the
/// protobuf runtime).
pub const RECURSION_LIMIT: u32 = 100;

fn wire_code_of(w: WireType) -> (r: u32)
    ensures
        r == crate::wire::wire_code(w),
{
    w.code() as u32
}

/// A varint length followed by that many bytes: the bytes, and how many
/// bytes the whole takes.
pub open spec fn spec_read_delimited(s: Seq<u8>) -> Result<(Seq<u8>, nat), DecodeError> {
    match spec_decode_varint(s) {
        Err(e) => Err(e),
        Ok((len, n)) => if len > usize::MAX {
            Err(DecodeError::MessageTooLarge)
        } else if s.len() - n < len {
            Err(DecodeError::UnexpectedEof)
        } else {
            Ok((s.subrange(n as int, (n + len) as int), n + len))
        },
    }
}

/// The value a varint `raw` gives a field of varint kind `k`: 32-bit
/// kinds keep the low 32 bits.
pub open spec fn from_varint(k: KindRef, raw: nat) -> ValueModel {
    match k {
        KindRef::Bool => ValueModel::Bool(raw != 0),
        KindRef::Int32 => ValueModel::I32(spec_i32_of_bits(raw) as i32),
        KindRef::Int64 => ValueModel::I64(spec_i64_of_bits(raw) as i64),
        KindRef::Uint32 => ValueModel::U32((raw % 0x1_0000_0000) as u32),
        KindRef::Uint64 => ValueModel::U64(raw as u64),
        KindRef::Sint32 => ValueModel::I32(spec_unzigzag(raw % 0x1_0000_0000) as i32),
        KindRef::Sint64 => ValueModel::I64(spec_unzigzag(raw) as i64),
        _ => ValueModel::EnumNumber(spec_i32_of_bits(raw) as i32),
    }
}

/// The value eight little-endian bytes worth `raw` give kind `k`.
pub open spec fn from_fixed64(k: KindRef, raw: nat) -> ValueModel {
    match k {
        KindRef::Fixed64 => ValueModel::U64(raw as u64),
        KindRef::Sfixed64 => ValueModel::I64(spec_i64_of_bits(raw) as i64),
        _ => ValueModel::F64(raw as u64),
    }
}

/// The value four little-endian bytes worth `raw` give kind `k`.
pub open spec fn from_fixed32(k: KindRef, raw: nat) -> ValueModel {
    match k {
        KindRef::Fixed32 => ValueModel::U32(raw as u32),
        KindRef::Sfixed32 => ValueModel::I32(spec_i32_of_bits(raw) as i32),
        _ => ValueModel::F32(raw as u32),
    }
}

/// Reading a value of scalar kind `k` (a string, bytes, number, bool or
/// enum: no message) at the start of `s`, written with the kind's own
/// wire type: the value and the number of bytes it takes.
pub open spec fn spec_read_scalar(k: KindRef, s: Seq<u8>) -> Result<(ValueModel, nat), DecodeError> {
    match wire_for(k) {
        WireType::Varint => match spec_decode_varint(s) {
            Ok((raw, n)) => Ok((from_varint(k, raw), n)),
            Err(e) => Err(e),
        },
        WireType::Fixed64 => if s.len() < 8 {
            Err(DecodeError::UnexpectedEof)
        } else {
            Ok((from_fixed64(k, spec_le64(s)), 8))
        },
        WireType::Fixed32 => if s.len() < 4 {
            Err(DecodeError::UnexpectedEof)
        } else {
            Ok((from_fixed32(k, spec_le32(s)), 4))
        },
        _ => match spec_read_delimited(s) {
            Err(e) => Err(e),
            Ok((b, n)) => if k == KindRef::String {
                if valid_utf8(b) {
                    Ok((ValueModel::Str(decode_utf8(b)), n))
                } else {
                    Err(DecodeError::InvalidUtf8)
                }
            } else {
                Ok((ValueModel::Bytes(b), n))
            },
        },
    }
}

// ── the decoder as a function ───────────────────────────────────────────
//
// Positions are offsets into the whole input. A message's fields are read
// up to `end`; nested messages and groups take one level of `depth` each.

/// The map key a key value gives; `None` for kinds that cannot key a map.
pub open spec fn key_model_of(v: ValueModel) -> Option<KeyModel> {
    match v {
        ValueModel::Bool(b) => Some(KeyModel::Bool(b)),
        ValueModel::I32(x) => Some(KeyModel::I32(x)),
        ValueModel::I64(x) => Some(KeyModel::I64(x)),
        ValueModel::U32(x) => Some(KeyModel::U32(x)),
        ValueModel::U64(x) => Some(KeyModel::U64(x)),
        ValueModel::Str(s) => Some(KeyModel::Str(s)),
        _ => None,
    }
}

/// Reading an unknown field with wire type `w` at `pos` (its tag read).
#[verifier::opaque]
pub open spec fn dec_unknown(n: u32, w: WireType, buf: Seq<u8>, pos: nat, depth: nat) -> Result<
    (UnknownModel, nat),
    DecodeError,
>
    decreases depth, 0nat, 0nat,
{
    match w {
        WireType::Varint => match spec_decode_varint(buf.skip(pos as int)) {
            Ok((v, k)) => Ok((UnknownModel::Varint(n, v as u64), pos + k)),
            Err(e) => Err(e),
        },
        WireType::Fixed64 => if buf.len() < pos + 8 {
            Err(DecodeError::UnexpectedEof)
        } else {
            Ok((UnknownModel::Fixed64(n, spec_le64(buf.skip(pos as int)) as u64), pos + 8))
        },
        WireType::Fixed32 => if buf.len() < pos + 4 {
            Err(DecodeError::UnexpectedEof)
        } else {
            Ok((UnknownModel::Fixed32(n, spec_le32(buf.skip(pos as int)) as u32), pos + 4))
        },
        WireType::LengthDelimited => match spec_read_delimited(buf.skip(pos as int)) {
            Ok((b, k)) => Ok((UnknownModel::LengthDelimited(n, b), pos + k)),
            Err(e) => Err(e),
        },
        WireType::StartGroup => if depth == 0 {
            Err(DecodeError::RecursionLimitExceeded)
        } else {
            dec_group(n, buf, pos, (depth - 1) as nat, seq![])
        },
        WireType::EndGroup => Err(DecodeError::InvalidWireType(4)),
    }
}

/// Reading the rest of group `n` from `p`, `acc` read so far.
#[verifier::opaque]
pub open spec fn dec_group(n: u32, buf: Seq<u8>, p: nat, depth: nat, acc: Seq<UnknownModel>) -> Result<
    (UnknownModel, nat),
    DecodeError,
>
    decreases depth, 1nat, buf.len() - p,
{
    if p > buf.len() {
        Err(DecodeError::UnexpectedEof)
    } else {
        match spec_decode_tag(buf.skip(p as int)) {
            Err(e) => Err(e),
            Ok((num, w, tn)) => {
                let q = p + tn;
                if w == WireType::EndGroup {
                    if num != n {
                        Err(DecodeError::InvalidEndGroup(num as u32))
                    } else {
                        Ok((UnknownModel::Group(n, acc), q))
                    }
                } else {
                    match dec_unknown(num as u32, w, buf, q, depth) {
                        Err(e) => Err(e),
                        Ok((u, q2)) => if q2 <= p || q2 > buf.len() {
                            Err(DecodeError::UnexpectedEof)
                        } else {
                            dec_group(n, buf, q2, depth, acc.push(u))
                        },
                    }
                }
            },
        }
    }
}

/// Reading one value of kind `k` written with wire type `w` at `pos`.
#[verifier::opaque]
pub open spec fn dec_value(pool: PoolInner, k: KindRef, w: WireType, buf: Seq<u8>, pos: nat, depth: nat) -> Result<
    (ValueModel, nat),
    DecodeError,
>
    decreases depth, 2nat, 0nat,
{
    if wire_for(k) != w {
        Err(DecodeError::InvalidWireType(crate::wire::wire_code(w) as u32))
    } else {
        match k {
            KindRef::Message(i) => match spec_read_delimited(buf.skip(pos as int)) {
                Err(e) => Err(e),
                Ok((b, t)) => if depth == 0 {
                    Err(DecodeError::RecursionLimitExceeded)
                } else {
                    match dec_msg(
                        pool,
                        i,
                        Map::empty(),
                        buf,
                        (pos + t - b.len()) as nat,
                        pos + t,
                        (depth - 1) as nat,
                    ) {
                        Ok(mp) => Ok(
                            (ValueModel::Message(MessageModel { pool, index: i, slots: sorted_slots(mp) }), pos + t),
                        ),
                        Err(e) => Err(e),
                    }
                },
            },
            _ => match spec_read_scalar(k, buf.skip(pos as int)) {
                Ok((v, t)) => Ok((v, pos + t)),
                Err(e) => Err(e),
            },
        }
    }
}

/// Reading the items of a packed list of field `f` from `q` to `limit`.
#[verifier::opaque]
pub open spec fn dec_packed(
    pool: PoolInner,
    f: FieldEntry,
    mp: Map<u32, SlotModel>,
    buf: Seq<u8>,
    q: nat,
    limit: nat,
    depth: nat,
) -> Result<Map<u32, SlotModel>, DecodeError>
    decreases depth, 3nat, buf.len() - q,
{
    if q >= limit {
        if q == limit {
            Ok(mp)
        } else {
            Err(DecodeError::UnexpectedEof)
        }
    } else if q > buf.len() {
        Err(DecodeError::UnexpectedEof)
    } else {
        match dec_value(pool, f.kind, wire_for(f.kind), buf, q, depth) {
            Err(e) => Err(e),
            Ok((v, q2)) => if q2 <= q || q2 > buf.len() {
                Err(DecodeError::UnexpectedEof)
            } else {
                dec_packed(pool, f, push_item_map(mp, f.number, v), buf, q2, limit, depth)
            },
        }
    }
}

/// Reading the fields of a map entry from `q` to `limit`: the last key and
/// value read.
#[verifier::opaque]
pub open spec fn dec_entry(
    pool: PoolInner,
    kk: KindRef,
    vk: KindRef,
    buf: Seq<u8>,
    q: nat,
    limit: nat,
    depth: nat,
    key: Option<ValueModel>,
    value: Option<ValueModel>,
) -> Result<(Option<ValueModel>, Option<ValueModel>), DecodeError>
    decreases depth, 3nat, buf.len() - q,
{
    if q >= limit {
        if q == limit {
            Ok((key, value))
        } else {
            Err(DecodeError::UnexpectedEof)
        }
    } else if q > buf.len() {
        Err(DecodeError::UnexpectedEof)
    } else {
        match spec_decode_tag(buf.skip(q as int)) {
            Err(e) => Err(e),
            Ok((n, iw, tn)) => {
                let q1 = q + tn;
                if n == 1 {
                    match dec_value(pool, kk, iw, buf, q1, depth) {
                        Err(e) => Err(e),
                        Ok((v, q2)) => if q2 <= q || q2 > buf.len() {
                            Err(DecodeError::UnexpectedEof)
                        } else {
                            dec_entry(pool, kk, vk, buf, q2, limit, depth, Some(v), value)
                        },
                    }
                } else if n == 2 {
                    match dec_value(pool, vk, iw, buf, q1, depth) {
                        Err(e) => Err(e),
                        Ok((v, q2)) => if q2 <= q || q2 > buf.len() {
                            Err(DecodeError::UnexpectedEof)
                        } else {
                            dec_entry(pool, kk, vk, buf, q2, limit, depth, key, Some(v))
                        },
                    }
                } else {
                    match dec_unknown(n as u32, iw, buf, q1, depth) {
                        Err(e) => Err(e),
                        Ok((_, q2)) => if q2 <= q || q2 > buf.len() {
                            Err(DecodeError::UnexpectedEof)
                        } else {
                            dec_entry(pool, kk, vk, buf, q2, limit, depth, key, value)
                        },
                    }
                }
            },
        }
    }
}

/// Storing the entry read (`fields`) into map field `f`; a missing key or
/// value is its kind's zero value, and a key of a kind that cannot key a
/// map fails.
pub open spec fn finish_entry(
    pool: PoolInner,
    msg: u32,
    mp: Map<u32, SlotModel>,
    f: FieldEntry,
    kk: KindRef,
    vk: KindRef,
    fields: Result<(Option<ValueModel>, Option<ValueModel>), DecodeError>,
    limit: nat,
) -> Result<(Map<u32, SlotModel>, nat), DecodeError> {
    match fields {
        Err(e) => Err(e),
        Ok((key, value)) => {
            let kv = match key {
                Some(x) => x,
                None => zero_of(pool, kk),
            };
            let vv = match value {
                Some(x) => x,
                None => zero_of(pool, vk),
            };
            match key_model_of(kv) {
                None => Err(DecodeError::InvalidWireType(0)),
                Some(km) => Ok((insert_entry_map(pool, msg, f, mp, km, vv), limit)),
            }
        },
    }
}

/// Reading one entry record of map field `f` at `pos`; a missing key or
/// value is its kind's zero value.
#[verifier::opaque]
pub open spec fn dec_map_entry(
    pool: PoolInner,
    msg: u32,
    mp: Map<u32, SlotModel>,
    f: FieldEntry,
    w: WireType,
    buf: Seq<u8>,
    pos: nat,
    depth: nat,
) -> Result<(Map<u32, SlotModel>, nat), DecodeError>
    decreases depth, 4nat, 0nat,
{
    if w != WireType::LengthDelimited {
        Err(DecodeError::InvalidWireType(crate::wire::wire_code(w) as u32))
    } else {
        match spec_read_delimited(buf.skip(pos as int)) {
            Err(e) => Err(e),
            Ok((b, t)) => match map_kinds(pool, f) {
                None => Err(DecodeError::InvalidWireType(2)),
                Some((kk, vk)) => finish_entry(
                    pool,
                    msg,
                    mp,
                    f,
                    kk,
                    vk,
                    dec_entry(pool, kk, vk, buf, (pos + t - b.len()) as nat, pos + t, depth, None, None),
                    pos + t,
                ),
            },
        }
    }
}

/// Reading one record of field `f` at `pos` (its tag read): a map entry,
/// a packed list or one list item, or a singular value (which replaces
/// the stored one and clears the other members of its oneof).
#[verifier::opaque]
pub open spec fn dec_field(
    pool: PoolInner,
    msg: u32,
    mp: Map<u32, SlotModel>,
    f: FieldEntry,
    w: WireType,
    buf: Seq<u8>,
    pos: nat,
    depth: nat,
) -> Result<(Map<u32, SlotModel>, nat), DecodeError>
    decreases depth, 5nat, 0nat,
{
    if field_is_map(pool, f) {
        dec_map_entry(pool, msg, mp, f, w, buf, pos, depth)
    } else if f.cardinality == Cardinality::Repeated {
        if w == WireType::LengthDelimited && wire_for(f.kind) != WireType::LengthDelimited {
            match spec_read_delimited(buf.skip(pos as int)) {
                Err(e) => Err(e),
                Ok((b, t)) => match dec_packed(
                    pool,
                    f,
                    ready(pool, msg, f, mp, ValueModel::List(seq![])),
                    buf,
                    (pos + t - b.len()) as nat,
                    pos + t,
                    depth,
                ) {
                    Ok(mp2) => Ok((mp2, pos + t)),
                    Err(e) => Err(e),
                },
            }
        } else {
            match dec_value(pool, f.kind, w, buf, pos, depth) {
                Err(e) => Err(e),
                Ok((v, q)) => Ok(
                    (push_item_map(ready(pool, msg, f, mp, ValueModel::List(seq![])), f.number, v), q),
                ),
            }
        }
    } else {
        match dec_value(pool, f.kind, w, buf, pos, depth) {
            Err(e) => Err(e),
            Ok((v, q)) => Ok((set_map(pool, msg, f, mp, v), q)),
        }
    }
}

/// Reading the records of a message of type `msg` from `p` up to `end`
/// into the slots `mp`; a record must not run past `end`.
#[verifier::opaque]
pub open spec fn dec_msg(
    pool: PoolInner,
    msg: u32,
    mp: Map<u32, SlotModel>,
    buf: Seq<u8>,
    p: nat,
    end: nat,
    depth: nat,
) -> Result<Map<u32, SlotModel>, DecodeError>
    decreases depth, 6nat, buf.len() - p,
{
    if p >= end {
        if p == end {
            Ok(mp)
        } else {
            Err(DecodeError::UnexpectedEof)
        }
    } else if p > buf.len() {
        Err(DecodeError::UnexpectedEof)
    } else {
        match spec_decode_tag(buf.skip(p as int)) {
            Err(e) => Err(e),
            Ok((num, w, tn)) => {
                let q = p + tn;
                match entry_by_number(fields_of(pool, msg), num as u32) {
                    Some(f) => match dec_field(pool, msg, mp, f, w, buf, q, depth) {
                        Err(e) => Err(e),
                        Ok((mp2, q2)) => if q2 <= p || q2 > buf.len() {
                            Err(DecodeError::UnexpectedEof)
                        } else {
                            dec_msg(pool, msg, mp2, buf, q2, end, depth)
                        },
                    },
                    None => match dec_unknown(num as u32, w, buf, q, depth) {
                        Err(e) => Err(e),
                        Ok((u, q2)) => if q2 <= p || q2 > buf.len() {
                            Err(DecodeError::UnexpectedEof)
                        } else {
                            dec_msg(pool, msg, add_unknown_map(mp, num as u32, u), buf, q2, end, depth)
                        },
                    },
                }
            },
        }
    }
}

/// What decoding `buf` as a message of type `msg` gives, with nesting
/// limited to `depth`.
pub open spec fn spec_decode(pool: PoolInner, msg: u32, buf: Seq<u8>, depth: nat) -> Result<
    MessageModel,
    DecodeError,
> {
    match dec_msg(pool, msg, Map::empty(), buf, 0, buf.len(), depth) {
        Ok(mp) => Ok(MessageModel { pool, index: msg, slots: sorted_slots(mp) }),
        Err(e) => Err(e),
    }
}

/// Read a varint length and check that many bytes remain after it.
fn read_len(buf: &[u8], pos: usize) -> (r: Result<(usize, usize), DecodeError>)
    requires
        pos <= buf@.len(),
    ensures
        r is Ok ==> pos < r->Ok_0.1 <= buf@.len() && r->Ok_0.1 + r->Ok_0.0 <= buf@.len(),
        buf@.len() == buf.len(),
        r matches Ok((len, p)) ==> spec_read_delimited(buf@.skip(pos as int)) == Ok::<(Seq<u8>, nat), DecodeError>((
            buf@.subrange(p as int, p + len),
            (p + len - pos) as nat,
        )),
        r matches Err(e) ==> spec_read_delimited(buf@.skip(pos as int)) == Err::<(Seq<u8>, nat), DecodeError>(e),
{
    let (len64, p) = match decode_varint(buf, pos) {
        Ok(x) => x,
        Err(e) => {
            return Err(e);
        },
    };
    if len64 > usize::MAX as u64 {
        return Err(DecodeError::MessageTooLarge);
    }
    let len = len64 as usize;
    if buf.len() - p < len {
        return Err(DecodeError::UnexpectedEof);
    }
    assert(buf@.skip(pos as int).subrange((p - pos) as int, (p - pos) + len) =~= buf@.subrange(p as int, p + len));
    Ok((len, p))
}

fn copy_range(buf: &[u8], start: usize, len: usize) -> (r: Vec<u8>)
    requires
        start + len <= buf@.len(),
    ensures
        r@ == buf@.subrange(start as int, start + len),
{
    let mut out: Vec<u8> = Vec::new();
    let mut i: usize = 0;
    while i < len
        invariant
            i <= len,
            start + len <= buf@.len(),
            buf@.len() == buf.len(),
            out@ == buf@.subrange(start as int, start + i),
        decreases len - i,
    {
        out.push(buf[start + i]);
        i = i + 1;
        assert(out@ =~= buf@.subrange(start as int, start + i));
    }
    out
}

/// Read one unknown field whose tag (`number`, `w`) was just read.
pub fn read_unknown(number: u32, w: WireType, buf: &[u8], pos: usize, depth: u32) -> (r: Result<
    (UnknownField, usize),
    DecodeError,
>)
    requires
        pos <= buf@.len(),
    ensures
        r is Ok ==> pos < r->Ok_0.1 <= buf@.len() && r->Ok_0.0.number == number,
        match r {
            Ok((u, p)) => dec_unknown(number, w, buf@, pos as nat, depth as nat) == Ok::<(UnknownModel, nat), DecodeError>((u.model(), p as nat)),
            Err(e) => dec_unknown(number, w, buf@, pos as nat, depth as nat) == Err::<(UnknownModel, nat), DecodeError>(e),
        },
    decreases depth, 0int,
{
    proof {
        reveal(dec_unknown);
        reveal(dec_group);
    }
    let blen = buf.len();
    assert(blen == buf@.len());
    match w {
        WireType::Varint => {
            let (v, p) = match decode_varint(buf, pos) {
                Ok(x) => x,
                Err(e) => {
                    return Err(e);
                },
            };
            Ok((UnknownField { number, data: UnknownFieldData::Varint(v) }, p))
        },
        WireType::Fixed64 => {
            let (v, p) = match get_fixed64(buf, pos) {
                Ok(x) => x,
                Err(e) => {
                    return Err(e);
                },
            };
            Ok((UnknownField { number, data: UnknownFieldData::Fixed64(v) }, p))
        },
        WireType::Fixed32 => {
            let (v, p) = match get_fixed32(buf, pos) {
                Ok(x) => x,
                Err(e) => {
                    return Err(e);
                },
            };
            Ok((UnknownField { number, data: UnknownFieldData::Fixed32(v) }, p))
        },
        WireType::LengthDelimited => {
            let (len, p) = match read_len(buf, pos) {
                Ok(x) => x,
                Err(e) => {
                    return Err(e);
                },
            };
            let data = copy_range(buf, p, len);
            Ok((UnknownField { number, data: UnknownFieldData::LengthDelimited(data) }, p + len))
        },
        WireType::StartGroup => {
            if depth == 0 {
                return Err(DecodeError::RecursionLimitExceeded);
            }
            let inner_depth = depth - 1;
            let mut nested: Vec<UnknownField> = Vec::new();
            let mut p = pos;
            proof {
                crate::value::lemma_unknown_models_len(nested@);
                assert(crate::value::unknown_models(nested@) =~= seq![]);
            }
            loop
                invariant
                    pos <= p <= buf@.len(),
                    inner_depth < depth,
                    inner_depth == depth - 1,
                    w == WireType::StartGroup,
                    dec_unknown(number, w, buf@, pos as nat, depth as nat) == dec_group(
                        number,
                        buf@,
                        p as nat,
                        inner_depth as nat,
                        crate::value::unknown_models(nested@),
                    ),
                decreases buf@.len() - p,
            {
                proof {
                    reveal(dec_group);
                    reveal(dec_unknown);
                }
                let (n, nw, q) = match decode_tag(buf, p) {
                    Ok(x) => x,
                    Err(e) => {
                        return Err(e);
                    },
                };
                if nw == WireType::EndGroup {
                    if n != number {
                        return Err(DecodeError::InvalidEndGroup(n));
                    }
                    let r = UnknownField { number, data: UnknownFieldData::Group(nested) };
                    return Ok((r, q));
                }
                let (f, q2) = match read_unknown(n, nw, buf, q, inner_depth) {
                    Ok(x) => x,
                    Err(e) => {
                        return Err(e);
                    },
                };
                let ghost before = nested@;
                nested.push(f);
                proof {
                    crate::value::lemma_unknown_models_len(before);
                    crate::value::lemma_unknown_models_len(nested@);
                    assert(crate::value::unknown_models(nested@) =~= crate::value::unknown_models(before).push(f.model()));
                }
                p = q2;
            }
        },
        WireType::EndGroup => Err(DecodeError::InvalidWireType(4)),
    }
}

/// Read one value of kind `k` written with wire type `w`.
pub fn read_singular(
    desc: &MessageDescriptor,
    k: KindRef,
    w: WireType,
    buf: &[u8],
    pos: usize,
    depth: u32,
) -> (r: Result<(Value, usize), DecodeError>)
    requires
        pos <= buf@.len(),
        crate::pool::kind_ok(k, desc.pool_view().messages@.len(), desc.pool_view().enums@.len()),
    ensures
        r is Ok ==> pos < r->Ok_0.1 <= buf@.len() && kind_fits(desc.pool_view(), k, r->Ok_0.0.model()),
        wire_for(k) != w ==> r == Err::<(Value, usize), DecodeError>(DecodeError::InvalidWireType(crate::wire::wire_code(w) as u32)),
        wire_for(k) == w && !(k is Message) ==> match r {
            Ok((v, p)) => spec_read_scalar(k, buf@.skip(pos as int)) == Ok::<(ValueModel, nat), DecodeError>((v.model(), (p - pos) as nat)),
            Err(e) => spec_read_scalar(k, buf@.skip(pos as int)) == Err::<(ValueModel, nat), DecodeError>(e),
        },
        match r {
            Ok((v, p)) => dec_value(desc.pool_view(), k, w, buf@, pos as nat, depth as nat) == Ok::<(ValueModel, nat), DecodeError>((v.model(), p as nat)),
            Err(e) => dec_value(desc.pool_view(), k, w, buf@, pos as nat, depth as nat) == Err::<(ValueModel, nat), DecodeError>(e),
        },
    decreases depth, 1int,
{
    proof {
        reveal(dec_value);
        reveal(dec_msg);
    }
    let blen = buf.len();
    assert(blen == buf@.len());
    if wire_kind_pub(k) != w {
        return Err(DecodeError::InvalidWireType(wire_code_of(w)));
    }
    match k {
        KindRef::Bool | KindRef::Int32 | KindRef::Int64 | KindRef::Uint32 | KindRef::Uint64
        | KindRef::Sint32 | KindRef::Sint64 | KindRef::Enum(_) => {
            let (raw, p) = match decode_varint(buf, pos) {
                Ok(x) => x,
                Err(e) => {
                    return Err(e);
                },
            };
            let v = match k {
                KindRef::Bool => Value::Bool(raw != 0),
                KindRef::Int32 => Value::I32(i32_of_bits(raw)),
                KindRef::Int64 => Value::I64(crate::wire::i64_of_bits(raw)),
                KindRef::Uint32 => Value::U32((raw % 0x1_0000_0000) as u32),
                KindRef::Uint64 => Value::U64(raw),
                KindRef::Sint32 => Value::I32(unzigzag32((raw % 0x1_0000_0000) as u32)),
                KindRef::Sint64 => Value::I64(unzigzag64(raw)),
                _ => Value::EnumNumber(i32_of_bits(raw)),
            };
            Ok((v, p))
        },
        KindRef::Fixed64 | KindRef::Sfixed64 | KindRef::Double => {
            let (raw, p) = match get_fixed64(buf, pos) {
                Ok(x) => x,
                Err(e) => {
                    return Err(e);
                },
            };
            let v = match k {
                KindRef::Fixed64 => Value::U64(raw),
                KindRef::Sfixed64 => Value::I64(crate::wire::i64_of_bits(raw)),
                _ => Value::F64(raw),
            };
            Ok((v, p))
        },
        KindRef::Fixed32 | KindRef::Sfixed32 | KindRef::Float => {
            let (raw, p) = match get_fixed32(buf, pos) {
                Ok(x) => x,
                Err(e) => {
                    return Err(e);
                },
            };
            let v = match k {
                KindRef::Fixed32 => Value::U32(raw),
                KindRef::Sfixed32 => Value::I32(i32_of_bits(raw as u64)),
                _ => Value::F32(raw),
            };
            Ok((v, p))
        },
        KindRef::String => {
            let (len, p) = match read_len(buf, pos) {
                Ok(x) => x,
                Err(e) => {
                    return Err(e);
                },
            };
            let bytes = copy_range(buf, p, len);
            match String::from_utf8(bytes) {
                Ok(s) => Ok((Value::String(s), p + len)),
                Err(_) => Err(DecodeError::InvalidUtf8),
            }
        },
        KindRef::Bytes => {
            let (len, p) = match read_len(buf, pos) {
                Ok(x) => x,
                Err(e) => {
                    return Err(e);
                },
            };
            Ok((Value::Bytes(copy_range(buf, p, len)), p + len))
        },
        KindRef::Message(i) => {
            let (len, p) = match read_len(buf, pos) {
                Ok(x) => x,
                Err(e) => {
                    return Err(e);
                },
            };
            if depth == 0 {
                return Err(DecodeError::RecursionLimitExceeded);
            }
            let inner_desc = MessageDescriptor::new(desc.pool_ref().clone_handle(), i);
            let mut inner = DynamicMessage::new(inner_desc);
            proof {
                assert(slot_view(inner.model().slots) =~= Map::<u32, SlotModel>::empty());
            }
            proof {
                assert(buf@.subrange(p as int, p + len).len() == len);
                assert(inner.model().pool == desc.pool_view());
            }
            match merge_until(&mut inner, buf, p, p + len, depth - 1) {
                Ok(()) => {},
                Err(e) => {
                    return Err(e);
                },
            }
            proof {
                inner.lemma_model();
                crate::message::lemma_sorted_slots(inner.model().slots);
            }
            Ok((Value::Message(inner), p + len))
        },
    }
}

/// Merge the fields in `buf[pos..end]` into `msg`; the last record must
/// end exactly at `end`.
pub fn merge_until(msg: &mut DynamicMessage, buf: &[u8], pos: usize, end: usize, depth: u32) -> (r:
    Result<(), DecodeError>)
    requires
        pos <= end <= buf@.len(),
        old(msg).wf(),
    ensures
        final(msg).wf(),
        final(msg).model().pool == old(msg).model().pool,
        final(msg).model().index == old(msg).model().index,
        match r {
            Ok(()) => dec_msg(
                old(msg).model().pool,
                old(msg).model().index,
                slot_view(old(msg).model().slots),
                buf@,
                pos as nat,
                end as nat,
                depth as nat,
            ) == Ok::<Map<u32, SlotModel>, DecodeError>(slot_view(final(msg).model().slots)),
            Err(e) => dec_msg(
                old(msg).model().pool,
                old(msg).model().index,
                slot_view(old(msg).model().slots),
                buf@,
                pos as nat,
                end as nat,
                depth as nat,
            ) == Err::<Map<u32, SlotModel>, DecodeError>(e),
        },
    decreases depth, 4int,
{
    let desc = msg.descriptor();
    let ghost pool = old(msg).model().pool;
    let ghost idx = old(msg).model().index;
    let ghost start = dec_msg(pool, idx, slot_view(old(msg).model().slots), buf@, pos as nat, end as nat, depth as nat);
    let mut p = pos;
    while p < end
        invariant
            pos <= p <= buf@.len(),
            end <= buf@.len(),
            msg.wf(),
            msg.model().pool == pool,
            msg.model().index == idx,
            desc.pool_view() == msg.model().pool,
            desc.index() == msg.model().index,
            start == dec_msg(pool, idx, slot_view(msg.model().slots), buf@, p as nat, end as nat, depth as nat),
            pool == old(msg).model().pool,
            idx == old(msg).model().index,
            start == dec_msg(pool, idx, slot_view(old(msg).model().slots), buf@, pos as nat, end as nat, depth as nat),
        decreases buf@.len() - p,
    {
        let ghost vb = slot_view(msg.model().slots);
        let (n, w, q) = match decode_tag(buf, p) {
            Ok(x) => x,
            Err(e) => {
                proof {
                    assert(start == Err::<Map<u32, SlotModel>, DecodeError>(e)) by {
                        reveal(dec_msg);
                        reveal(dec_field);
                        reveal(dec_unknown);
                    }
                }
                return Err(e);
            },
        };
        match field_for(&desc, n) {
            Some(f) => {
                match merge_field(msg, &desc, &f, w, buf, q, depth) {
                    Ok(q2) => {
                        proof {
                            assert(start == dec_msg(pool, idx, slot_view(msg.model().slots), buf@, q2 as nat, end as nat, depth as nat)) by {
                                reveal(dec_msg);
                                reveal(dec_field);
                                reveal(dec_unknown);
                            }
                        }
                        p = q2;
                    },
                    Err(e) => {
                        proof {
                            assert(start == Err::<Map<u32, SlotModel>, DecodeError>(e)) by {
                                reveal(dec_msg);
                                reveal(dec_field);
                                reveal(dec_unknown);
                            }
                        }
                        return Err(e);
                    },
                }
            },
            None => {
                match read_unknown(n, w, buf, q, depth) {
                    Ok((u, q2)) => {
                        msg.add_unknown(n, u);
                        proof {
                            assert(start == dec_msg(pool, idx, slot_view(msg.model().slots), buf@, q2 as nat, end as nat, depth as nat)) by {
                                reveal(dec_msg);
                                reveal(dec_field);
                                reveal(dec_unknown);
                            }
                        }
                        p = q2;
                    },
                    Err(e) => {
                        proof {
                            assert(start == Err::<Map<u32, SlotModel>, DecodeError>(e)) by {
                                reveal(dec_msg);
                                reveal(dec_field);
                                reveal(dec_unknown);
                            }
                        }
                        return Err(e);
                    },
                }
            },
        }
    }
    if p != end {
        proof {
            assert(start == Err::<Map<u32, SlotModel>, DecodeError>(DecodeError::UnexpectedEof)) by {
                reveal(dec_msg);
                reveal(dec_field);
                reveal(dec_unknown);
            }
        }
        return Err(DecodeError::UnexpectedEof);
    }
    proof {
        assert(start == Ok::<Map<u32, SlotModel>, DecodeError>(slot_view(msg.model().slots))) by {
            reveal(dec_msg);
            reveal(dec_field);
            reveal(dec_unknown);
        }
    }
    Ok(())
}

/// Merge one record of field `f` (its tag already read) into `msg`.
fn merge_field(
    msg: &mut DynamicMessage,
    desc: &MessageDescriptor,
    f: &FieldDescriptor,
    w: WireType,
    buf: &[u8],
    pos: usize,
    depth: u32,
) -> (r: Result<usize, DecodeError>)
    requires
        pos <= buf@.len(),
        old(msg).wf(),
        desc.pool_view() == old(msg).model().pool,
        desc.index() == old(msg).model().index,
        belongs(old(msg).model(), f),
    ensures
        final(msg).wf(),
        final(msg).model().pool == old(msg).model().pool,
        final(msg).model().index == old(msg).model().index,
        r is Ok ==> pos < r->Ok_0 <= buf@.len(),
        match r {
            Ok(q) => dec_field(
                old(msg).model().pool,
                old(msg).model().index,
                slot_view(old(msg).model().slots),
                f.entry(),
                w,
                buf@,
                pos as nat,
                depth as nat,
            ) == Ok::<(Map<u32, SlotModel>, nat), DecodeError>((slot_view(final(msg).model().slots), q as nat)),
            Err(e) => dec_field(
                old(msg).model().pool,
                old(msg).model().index,
                slot_view(old(msg).model().slots),
                f.entry(),
                w,
                buf@,
                pos as nat,
                depth as nat,
            ) == Err::<(Map<u32, SlotModel>, nat), DecodeError>(e),
        },
    decreases depth, 3int,
{
    let ghost pool = old(msg).model().pool;
    let ghost idx = old(msg).model().index;
    let ghost v0 = slot_view(old(msg).model().slots);
    proof {
        reveal(dec_field);
        reveal(dec_map_entry);
        reveal(dec_packed);
        reveal(dec_value);
    }
    let k = f.kind_ref();
    if f.is_map() {
        return merge_map_entry(msg, desc, f, w, buf, pos, depth);
    }
    if f.cardinality() == Cardinality::Repeated {
        if w == WireType::LengthDelimited && wire_kind_pub(k) != WireType::LengthDelimited {
            let (len, p) = match read_len(buf, pos) {
                Ok(x) => x,
                Err(e) => {
                    return Err(e);
                },
            };
            let limit = p + len;
            msg.ensure_list(f);
            let ghost v1 = slot_view(msg.model().slots);
            let ghost whole = dec_packed(pool, f.entry(), v1, buf@, p as nat, limit as nat, depth as nat);
            proof {
                assert(dec_field(pool, idx, v0, f.entry(), w, buf@, pos as nat, depth as nat) == match whole {
                    Ok(mp2) => Ok::<(Map<u32, SlotModel>, nat), DecodeError>((mp2, limit as nat)),
                    Err(e) => Err::<(Map<u32, SlotModel>, nat), DecodeError>(e),
                });
            }
            let mut q = p;
            while q < limit
                invariant
                    p <= q <= buf@.len(),
                    limit <= buf@.len(),
                    pos < p,
                    msg.wf(),
                    msg.model().pool == old(msg).model().pool,
                    msg.model().index == old(msg).model().index,
                    pool == old(msg).model().pool,
                    desc.pool_view() == old(msg).model().pool,
                    belongs(msg.model(), f),
                    k == f.entry().kind,
                    crate::pool::kind_ok(k, desc.pool_view().messages@.len(), desc.pool_view().enums@.len()),
                    whole == dec_packed(pool, f.entry(), slot_view(msg.model().slots), buf@, q as nat, limit as nat, depth as nat),
                    idx == old(msg).model().index,
                    v0 == slot_view(old(msg).model().slots),
                    dec_field(pool, idx, v0, f.entry(), w, buf@, pos as nat, depth as nat) == match whole {
                        Ok(mp2) => Ok::<(Map<u32, SlotModel>, nat), DecodeError>((mp2, limit as nat)),
                        Err(e) => Err::<(Map<u32, SlotModel>, nat), DecodeError>(e),
                    },
                decreases buf@.len() - q,
            {
                let ghost vb = slot_view(msg.model().slots);
                let (v, q2) = match read_singular(desc, k, wire_kind_pub(k), buf, q, depth) {
                    Ok(x) => x,
                    Err(e) => {
                        proof {
                            assert(whole == Err::<Map<u32, SlotModel>, DecodeError>(e)) by {
                                reveal(dec_packed);
 reveal(dec_value);
                            }
                        }
                        return Err(e);
                    },
                };
                msg.push_list_item(f, v);
                proof {
                    assert(whole == dec_packed(pool, f.entry(), slot_view(msg.model().slots), buf@, q2 as nat, limit as nat, depth as nat)) by {
                        reveal(dec_packed);
 reveal(dec_value);
                    }
                }
                q = q2;
            }
            if q != limit {
                proof {
                    assert(whole == Err::<Map<u32, SlotModel>, DecodeError>(DecodeError::UnexpectedEof)) by {
                        reveal(dec_packed);
 reveal(dec_value);
                    }
                }
                return Err(DecodeError::UnexpectedEof);
            }
            proof {
                assert(whole == Ok::<Map<u32, SlotModel>, DecodeError>(slot_view(msg.model().slots))) by {
                    reveal(dec_packed);
 reveal(dec_value);
                }
            }
            return Ok(limit);
        }
        let (v, q) = match read_singular(desc, k, w, buf, pos, depth) {
            Ok(x) => x,
            Err(e) => {
                return Err(e);
            },
        };
        msg.ensure_list(f);
        msg.push_list_item(f, v);
        return Ok(q);
    }
    let (v, q) = match read_singular(desc, k, w, buf, pos, depth) {
        Ok(x) => x,
        Err(e) => {
            return Err(e);
        },
    };
    let ghost vm = v.model();
    let ghost before = msg.model().slots;
    msg.set_field(f, v);
    proof {
        crate::message::lemma_set_view(pool, idx, f.entry(), before, msg.model().slots, vm);
    }
    Ok(q)
}

/// A map key for a key value; `None` for kinds that cannot key a map.
fn key_of(v: Value) -> (r: Option<MapKey>)
    ensures
        match key_model_of(v.model()) {
            Some(k) => r is Some && r->0.model() == k,
            None => r is None,
        },
{
    match v {
        Value::Bool(b) => Some(MapKey::Bool(b)),
        Value::I32(x) => Some(MapKey::I32(x)),
        Value::I64(x) => Some(MapKey::I64(x)),
        Value::U32(x) => Some(MapKey::U32(x)),
        Value::U64(x) => Some(MapKey::U64(x)),
        Value::String(s) => Some(MapKey::String(s)),
        _ => None,
    }
}

proof fn lemma_map_entry_unfold(
    pool: PoolInner,
    msg: u32,
    mp: Map<u32, SlotModel>,
    f: FieldEntry,
    w: WireType,
    buf: Seq<u8>,
    pos: nat,
    depth: nat,
)
    ensures
        dec_map_entry(pool, msg, mp, f, w, buf, pos, depth) == (if w != WireType::LengthDelimited {
            Err(DecodeError::InvalidWireType(crate::wire::wire_code(w) as u32))
        } else {
            match spec_read_delimited(buf.skip(pos as int)) {
                Err(e) => Err(e),
                Ok((b, t)) => match map_kinds(pool, f) {
                    None => Err(DecodeError::InvalidWireType(2)),
                    Some((kk, vk)) => finish_entry(
                        pool,
                        msg,
                        mp,
                        f,
                        kk,
                        vk,
                        dec_entry(pool, kk, vk, buf, (pos + t - b.len()) as nat, pos + t, depth, None, None),
                        pos + t,
                    ),
                },
            }
        }),
{
    reveal(dec_map_entry);
    reveal(dec_entry);
}

/// The model of an optional value.
pub open spec fn opt_model(v: &Option<Value>) -> Option<ValueModel> {
    match v {
        Some(x) => Some(x.model()),
        None => None,
    }
}

/// Merge one map entry record of map field `f` into `msg`.
#[verifier::rlimit(40)]
fn merge_map_entry(
    msg: &mut DynamicMessage,
    desc: &MessageDescriptor,
    f: &FieldDescriptor,
    w: WireType,
    buf: &[u8],
    pos: usize,
    depth: u32,
) -> (r: Result<usize, DecodeError>)
    requires
        pos <= buf@.len(),
        old(msg).wf(),
        desc.pool_view() == old(msg).model().pool,
        desc.index() == old(msg).model().index,
        belongs(old(msg).model(), f),
    ensures
        final(msg).wf(),
        final(msg).model().pool == old(msg).model().pool,
        final(msg).model().index == old(msg).model().index,
        r is Ok ==> pos < r->Ok_0 <= buf@.len(),
        match r {
            Ok(q) => dec_map_entry(
                old(msg).model().pool,
                old(msg).model().index,
                slot_view(old(msg).model().slots),
                f.entry(),
                w,
                buf@,
                pos as nat,
                depth as nat,
            ) == Ok::<(Map<u32, SlotModel>, nat), DecodeError>((slot_view(final(msg).model().slots), q as nat)),
            Err(e) => dec_map_entry(
                old(msg).model().pool,
                old(msg).model().index,
                slot_view(old(msg).model().slots),
                f.entry(),
                w,
                buf@,
                pos as nat,
                depth as nat,
            ) == Err::<(Map<u32, SlotModel>, nat), DecodeError>(e),
        },
    decreases depth, 2int,
{
    let ghost pool = old(msg).model().pool;
    let ghost idx = old(msg).model().index;
    let ghost v0 = slot_view(old(msg).model().slots);
    let ghost whole = dec_map_entry(pool, idx, v0, f.entry(), w, buf@, pos as nat, depth as nat);
    proof {
        lemma_map_entry_unfold(pool, idx, v0, f.entry(), w, buf@, pos as nat, depth as nat);
    }
    if w != WireType::LengthDelimited {
        return Err(DecodeError::InvalidWireType(wire_code_of(w)));
    }
    let (len, p) = match read_len(buf, pos) {
        Ok(x) => x,
        Err(e) => {
            return Err(e);
        },
    };
    let limit = p + len;
    proof {
        assert(buf@.subrange(p as int, p + len).len() == len);
    }
    let (kk, vk) = match map_entry_kinds(f) {
        Some(x) => x,
        None => {
            return Err(DecodeError::InvalidWireType(2));
        },
    };
    let ghost fields_run = dec_entry(pool, kk, vk, buf@, p as nat, limit as nat, depth as nat, None, None);
    assert(whole == finish_entry(pool, idx, v0, f.entry(), kk, vk, fields_run, limit as nat));
    let _inner = f.pool_ref().inner_ref();
    proof {
        crate::message::lemma_map_kinds_ok(f.pool_view(), f.entry());
    }
    let mut key: Option<Value> = None;
    let mut value: Option<Value> = None;
    let mut q = p;
    while q < limit
        invariant
            p <= q <= buf@.len(),
            limit <= buf@.len(),
            pos < p,
            crate::pool::kind_ok(kk, desc.pool_view().messages@.len(), desc.pool_view().enums@.len()),
            crate::pool::kind_ok(vk, desc.pool_view().messages@.len(), desc.pool_view().enums@.len()),
            value matches Some(v) ==> kind_fits(desc.pool_view(), vk, v.model()),
            msg.wf(),
            msg.model().pool == old(msg).model().pool,
            msg.model().index == old(msg).model().index,
            desc.pool_view() == pool,
            fields_run == dec_entry(pool, kk, vk, buf@, q as nat, limit as nat, depth as nat, opt_model(&key), opt_model(&value)),
            pool == old(msg).model().pool,
            idx == old(msg).model().index,
            v0 == slot_view(old(msg).model().slots),
            whole == dec_map_entry(pool, idx, v0, f.entry(), w, buf@, pos as nat, depth as nat),
            whole == finish_entry(pool, idx, v0, f.entry(), kk, vk, fields_run, limit as nat),
            slot_view(msg.model().slots) == v0,
        decreases buf@.len() - q,
    {
        let (n, iw, q1) = match decode_tag(buf, q) {
            Ok(x) => x,
            Err(e) => {
                proof {
                    assert(fields_run == Err::<(Option<ValueModel>, Option<ValueModel>), DecodeError>(e)) by {
                        reveal(dec_entry);
                        reveal(dec_value);
                        reveal(dec_unknown);
                    }
                }
                return Err(e);
            },
        };
        if n == 1 {
            match read_singular(desc, kk, iw, buf, q1, depth) {
                Ok((v, q2)) => {
                    proof {
                        assert(fields_run == dec_entry(pool, kk, vk, buf@, q2 as nat, limit as nat, depth as nat, Some(v.model()), opt_model(&value))) by {
                            reveal(dec_entry);
                            reveal(dec_value);
                            reveal(dec_unknown);
                        }
                    }
                    key = Some(v);
                    q = q2;
                },
                Err(e) => {
                    proof {
                        assert(fields_run == Err::<(Option<ValueModel>, Option<ValueModel>), DecodeError>(e)) by {
                            reveal(dec_entry);
                            reveal(dec_value);
                            reveal(dec_unknown);
                        }
                    }
                    return Err(e);
                },
            }
        } else if n == 2 {
            match read_singular(desc, vk, iw, buf, q1, depth) {
                Ok((v, q2)) => {
                    proof {
                        assert(fields_run == dec_entry(pool, kk, vk, buf@, q2 as nat, limit as nat, depth as nat, opt_model(&key), Some(v.model()))) by {
                            reveal(dec_entry);
                            reveal(dec_value);
                            reveal(dec_unknown);
                        }
                    }
                    value = Some(v);
                    q = q2;
                },
                Err(e) => {
                    proof {
                        assert(fields_run == Err::<(Option<ValueModel>, Option<ValueModel>), DecodeError>(e)) by {
                            reveal(dec_entry);
                            reveal(dec_value);
                            reveal(dec_unknown);
                        }
                    }
                    return Err(e);
                },
            }
        } else {
            match read_unknown(n, iw, buf, q1, depth) {
                Ok((_, q2)) => {
                    proof {
                        assert(fields_run == dec_entry(pool, kk, vk, buf@, q2 as nat, limit as nat, depth as nat, opt_model(&key), opt_model(&value))) by {
                            reveal(dec_entry);
                            reveal(dec_value);
                            reveal(dec_unknown);
                        }
                    }
                    q = q2;
                },
                Err(e) => {
                    proof {
                        assert(fields_run == Err::<(Option<ValueModel>, Option<ValueModel>), DecodeError>(e)) by {
                            reveal(dec_entry);
                            reveal(dec_value);
                            reveal(dec_unknown);
                        }
                    }
                    return Err(e);
                },
            }
        }
    }
    if q != limit {
        proof {
            assert(fields_run == Err::<(Option<ValueModel>, Option<ValueModel>), DecodeError>(DecodeError::UnexpectedEof)) by {
                reveal(dec_entry);
            }
        }
        return Err(DecodeError::UnexpectedEof);
    }
    proof {
        assert(fields_run == Ok::<(Option<ValueModel>, Option<ValueModel>), DecodeError>((opt_model(&key), opt_model(&value)))) by {
            reveal(dec_entry);
        }
    }
    match store_entry(msg, desc, f, kk, vk, key, value, limit) {
        Ok(()) => Ok(limit),
        Err(e) => Err(e),
    }
}

/// Store the key and value read for map field `f` (zero values for the
/// missing ones).
fn store_entry(
    msg: &mut DynamicMessage,
    desc: &MessageDescriptor,
    f: &FieldDescriptor,
    kk: KindRef,
    vk: KindRef,
    key: Option<Value>,
    value: Option<Value>,
    limit: usize,
) -> (r: Result<(), DecodeError>)
    requires
        old(msg).wf(),
        desc.pool_view() == old(msg).model().pool,
        belongs(old(msg).model(), f),
        field_is_map(f.pool_view(), f.entry()),
        map_kinds(f.pool_view(), f.entry()) == Some((kk, vk)),
        crate::pool::kind_ok(kk, desc.pool_view().messages@.len(), desc.pool_view().enums@.len()),
        crate::pool::kind_ok(vk, desc.pool_view().messages@.len(), desc.pool_view().enums@.len()),
    ensures
        final(msg).wf(),
        final(msg).model().pool == old(msg).model().pool,
        final(msg).model().index == old(msg).model().index,
        match r {
            Ok(()) => finish_entry(
                old(msg).model().pool,
                old(msg).model().index,
                slot_view(old(msg).model().slots),
                f.entry(),
                kk,
                vk,
                Ok::<(Option<ValueModel>, Option<ValueModel>), DecodeError>((opt_model(&key), opt_model(&value))),
                limit as nat,
            ) == Ok::<(Map<u32, SlotModel>, nat), DecodeError>((slot_view(final(msg).model().slots), limit as nat)),
            Err(e) => finish_entry(
                old(msg).model().pool,
                old(msg).model().index,
                slot_view(old(msg).model().slots),
                f.entry(),
                kk,
                vk,
                Ok::<(Option<ValueModel>, Option<ValueModel>), DecodeError>((opt_model(&key), opt_model(&value))),
                limit as nat,
            ) == Err::<(Map<u32, SlotModel>, nat), DecodeError>(e),
        },
{
    let key_value = match key {
        Some(v) => v,
        None => zero_for_kind(desc, kk),
    };
    let value_value = match value {
        Some(v) => v,
        None => zero_for_kind(desc, vk),
    };
    let mk = match key_of(key_value) {
        Some(k) => k,
        None => {
            return Err(DecodeError::InvalidWireType(0));
        },
    };
    msg.insert_map_entry(f, mk, value_value);
    Ok(())
}

fn zero_for_kind(desc: &MessageDescriptor, k: KindRef) -> (r: Value)
    requires
        crate::pool::kind_ok(k, desc.pool_view().messages@.len(), desc.pool_view().enums@.len()),
    ensures
        kind_fits(desc.pool_view(), k, r.model()),
        r.model() == zero_of(desc.pool_view(), k),
{
    let r = crate::message::zero_value_pub(desc, k);
    proof {
        crate::message::lemma_zero_fits(desc.pool_view(), k);
    }
    r
}

impl DynamicMessage {
    /// Decode `buf` as a message of type `desc`.
    pub fn decode(desc: MessageDescriptor, buf: &[u8]) -> (r: Result<DynamicMessage, DecodeError>)
        ensures
            r matches Ok(m) ==> m.wf(),
            match r {
                Ok(m) => spec_decode(desc.pool_view(), desc.index(), buf@, RECURSION_LIMIT as nat)
                    == Ok::<MessageModel, DecodeError>(m.model()),
                Err(e) => spec_decode(desc.pool_view(), desc.index(), buf@, RECURSION_LIMIT as nat)
                    == Err::<MessageModel, DecodeError>(e),
            },
    {
        DynamicMessage::decode_with_limits(desc, buf, buf.len(), RECURSION_LIMIT)
    }

    /// Decode with the limits of `opts`: longer input is refused as too
    /// large, deeper nesting as over the recursion limit.
    pub fn decode_with_options(desc: MessageDescriptor, buf: &[u8], opts: crate::options::DecodeOptions) -> (r: Result<
        DynamicMessage,
        DecodeError,
    >)
        ensures
            buf@.len() > opts.max_message_size_value() ==> r == Err::<DynamicMessage, DecodeError>(
                DecodeError::MessageTooLarge,
            ),
            r matches Ok(m) ==> m.wf(),
            buf@.len() <= opts.max_message_size_value() ==> match r {
                Ok(m) => spec_decode(
                    desc.pool_view(),
                    desc.index(),
                    buf@,
                    opts.recursion_limit_value() as nat,
                ) == Ok::<MessageModel, DecodeError>(m.model()),
                Err(e) => spec_decode(
                    desc.pool_view(),
                    desc.index(),
                    buf@,
                    opts.recursion_limit_value() as nat,
                ) == Err::<MessageModel, DecodeError>(e),
            },
    {
        DynamicMessage::decode_with_limits(desc, buf, opts.max_message_size(), opts.recursion_limit())
    }

    /// Decode with an explicit size limit and nesting limit.
    pub fn decode_with_limits(
        desc: MessageDescriptor,
        buf: &[u8],
        max_message_size: usize,
        recursion_limit: u32,
    ) -> (r: Result<DynamicMessage, DecodeError>)
        ensures
            buf@.len() > max_message_size ==> r == Err::<DynamicMessage, DecodeError>(
                DecodeError::MessageTooLarge,
            ),
            r matches Ok(m) ==> m.wf(),
            buf@.len() <= max_message_size ==> match r {
                Ok(m) => spec_decode(desc.pool_view(), desc.index(), buf@, recursion_limit as nat)
                    == Ok::<MessageModel, DecodeError>(m.model()),
                Err(e) => spec_decode(desc.pool_view(), desc.index(), buf@, recursion_limit as nat)
                    == Err::<MessageModel, DecodeError>(e),
            },
    {
        if buf.len() > max_message_size {
            return Err(DecodeError::MessageTooLarge);
        }
        let ghost pool = desc.pool_view();
        let ghost idx = desc.index();
        let mut msg = DynamicMessage::new(desc);
        proof {
            assert(slot_view(msg.model().slots) =~= Map::<u32, SlotModel>::empty());
        }
        match merge_until(&mut msg, buf, 0, buf.len(), recursion_limit) {
            Ok(()) => {
                proof {
                    crate::message::lemma_sorted_slots(msg.model().slots);
                }
                Ok(msg)
            },
            Err(e) => Err(e),
        }
    }

    /// Merge the fields encoded in `buf` into this message.
    pub fn merge(&mut self, buf: &[u8]) -> (r: Result<(), DecodeError>)
        requires
            old(self).wf(),
        ensures
            final(self).wf(),
            final(self).model().pool == old(self).model().pool,
            final(self).model().index == old(self).model().index,
            match r {
                Ok(()) => dec_msg(
                    old(self).model().pool,
                    old(self).model().index,
                    slot_view(old(self).model().slots),
                    buf@,
                    0,
                    buf@.len(),
                    RECURSION_LIMIT as nat,
                ) == Ok::<Map<u32, SlotModel>, DecodeError>(slot_view(final(self).model().slots)),
                Err(e) => dec_msg(
                    old(self).model().pool,
                    old(self).model().index,
                    slot_view(old(self).model().slots),
                    buf@,
                    0,
                    buf@.len(),
                    RECURSION_LIMIT as nat,
                ) == Err::<Map<u32, SlotModel>, DecodeError>(e),
            },
    {
        merge_until(self, buf, 0, buf.len(), RECURSION_LIMIT)
    }
}

} // verus!
