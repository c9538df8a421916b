//! Properties that relate several operations of the library.

use vstd::prelude::*;
use vstd::utf8::{decode_utf8, encode_utf8, encode_utf8_decode_utf8, encode_utf8_valid_utf8, valid_utf8};

use crate::codec::{delimited, payload, wire_for};
use crate::decode::{spec_read_delimited, spec_read_scalar};
use crate::error::DecodeError;
use crate::case::{spec_lower_camel, wkt_names};
use crate::json::{comma_joined, full_name_of, mask_paths, msg_out, named_value, JsonModel, JsonStyle, Outcome};
use crate::message::{MessageModel, default_for, is_sibling, kind_fits, set_effect, slot_get, SlotModel};
use crate::descriptor::{FieldDescriptorProto, Label};
use crate::pool::{Cardinality, FieldEntry, KindRef, PoolInner};
use crate::pool_build::{packed_option_of, spec_field_entry_matches};
use crate::value::ValueModel;
use crate::wire::{
    WireType, lemma_i32_bits_roundtrip, lemma_i64_bits_roundtrip, lemma_le32_roundtrip,
    lemma_le64_roundtrip, lemma_varint_roundtrip, lemma_zigzag_roundtrip, spec_decode_varint,
    spec_le32, spec_le32_bytes, spec_le64, spec_le64_bytes, spec_u32_of_int, spec_u64_of_int,
    spec_varint, spec_zigzag,
};

verus! {

pub proof fn lemma_varint_of(v: nat, rest: Seq<u8>)
    requires
        v < 0x1_0000_0000_0000_0000,
    ensures
        spec_decode_varint(spec_varint(v) + rest) == Ok::<(nat, nat), DecodeError>(
            (v, spec_varint(v).len()),
        ),
{
    lemma_varint_roundtrip(v as u64, rest);
}

pub proof fn lemma_delimited(b: Seq<u8>, rest: Seq<u8>)
    requires
        b.len() <= usize::MAX,
    ensures
        spec_read_delimited(delimited(b) + rest) == Ok::<(Seq<u8>, nat), DecodeError>(
            (b, delimited(b).len()),
        ),
{
    let n = spec_varint(b.len()).len();
    lemma_varint_of(b.len(), b + rest);
    assert(delimited(b) + rest =~= spec_varint(b.len()) + (b + rest));
    assert((delimited(b) + rest).subrange(n as int, (n + b.len()) as int) =~= b);
}

/// Reading back a scalar value (no message) from the payload it is
/// written as gives the value, and takes exactly the payload's bytes,
/// whatever bytes follow. Strings and bytes longer than the address
/// space are left out.
pub proof fn law_scalar_payload_roundtrip(pool: PoolInner, k: KindRef, v: ValueModel, rest: Seq<u8>)
    requires
        !(k is Message),
        kind_fits(pool, k, v),
        v matches ValueModel::Str(s) ==> encode_utf8(s).len() <= usize::MAX,
        v matches ValueModel::Bytes(b) ==> b.len() <= usize::MAX,
    ensures
        spec_read_scalar(k, payload(k, v) + rest) == Ok::<(ValueModel, nat), DecodeError>(
            (v, payload(k, v).len()),
        ),
{
    match (k, v) {
        (KindRef::Bool, ValueModel::Bool(b)) => {
            lemma_varint_of(if b { 1 } else { 0 }, rest);
        },
        (KindRef::Int32, ValueModel::I32(x)) => {
            lemma_varint_of(spec_u64_of_int(x as int), rest);
            lemma_i32_bits_roundtrip(x as int);
        },
        (KindRef::Enum(_), ValueModel::EnumNumber(x)) => {
            lemma_varint_of(spec_u64_of_int(x as int), rest);
            lemma_i32_bits_roundtrip(x as int);
        },
        (KindRef::Int64, ValueModel::I64(x)) => {
            lemma_varint_of(spec_u64_of_int(x as int), rest);
            lemma_i64_bits_roundtrip(x as int);
        },
        (KindRef::Uint32, ValueModel::U32(x)) => {
            lemma_varint_of(x as nat, rest);
        },
        (KindRef::Uint64, ValueModel::U64(x)) => {
            lemma_varint_of(x as nat, rest);
        },
        (KindRef::Sint32, ValueModel::I32(x)) => {
            lemma_varint_of(spec_zigzag(x as int), rest);
            lemma_zigzag_roundtrip(x as int);
        },
        (KindRef::Sint64, ValueModel::I64(x)) => {
            lemma_varint_of(spec_zigzag(x as int), rest);
            lemma_zigzag_roundtrip(x as int);
        },
        (KindRef::Fixed64, ValueModel::U64(x)) => {
            lemma_le64_roundtrip(x as nat, rest);
        },
        (KindRef::Sfixed64, ValueModel::I64(x)) => {
            lemma_le64_roundtrip(spec_u64_of_int(x as int), rest);
            lemma_i64_bits_roundtrip(x as int);
        },
        (KindRef::Double, ValueModel::F64(x)) => {
            lemma_le64_roundtrip(x as nat, rest);
        },
        (KindRef::Fixed32, ValueModel::U32(x)) => {
            lemma_le32_roundtrip(x as nat, rest);
        },
        (KindRef::Sfixed32, ValueModel::I32(x)) => {
            lemma_le32_roundtrip(spec_u32_of_int(x as int), rest);
            lemma_i32_bits_roundtrip(x as int);
        },
        (KindRef::Float, ValueModel::F32(x)) => {
            lemma_le32_roundtrip(x as nat, rest);
        },
        (KindRef::String, ValueModel::Str(s)) => {
            lemma_delimited(encode_utf8(s), rest);
            encode_utf8_valid_utf8(s);
            encode_utf8_decode_utf8(s);
        },
        (KindRef::Bytes, ValueModel::Bytes(b)) => {
            lemma_delimited(b, rest);
        },
        _ => {},
    }
}


// ── setting and clearing fields ─────────────────────────────────────────

/// What reading field `f` gives from a message with slots `slots`: the
/// stored value, else the field's default.
pub open spec fn read_slot(pool: PoolInner, slots: Seq<(u32, SlotModel)>, f: FieldEntry) -> ValueModel {
    match slot_get(slots, f.number) {
        Some(SlotModel::Value(v)) => v,
        _ => default_for(pool, f),
    }
}

/// Reading a field after setting it gives the value set: the last write
/// wins.
pub proof fn law_read_after_set(
    pool: PoolInner,
    msg: u32,
    f: FieldEntry,
    before: Seq<(u32, SlotModel)>,
    after: Seq<(u32, SlotModel)>,
    v: ValueModel,
)
    requires
        set_effect(pool, msg, f, before, after, Some(v)),
    ensures
        read_slot(pool, after, f) == v,
{
}

/// Setting a member of a oneof unsets every other member of it; fields
/// outside the oneof keep what they held.
pub proof fn law_set_clears_oneof_siblings(
    pool: PoolInner,
    msg: u32,
    f: FieldEntry,
    g: FieldEntry,
    before: Seq<(u32, SlotModel)>,
    after: Seq<(u32, SlotModel)>,
    v: ValueModel,
)
    requires
        set_effect(pool, msg, f, before, after, Some(v)),
        g.number != f.number,
    ensures
        is_sibling(pool, msg, f, g.number) ==> slot_get(after, g.number) is None
            && read_slot(pool, after, g) == default_for(pool, g),
        !is_sibling(pool, msg, f, g.number) ==> read_slot(pool, after, g) == read_slot(
            pool,
            before,
            g,
        ),
{
    assert(slot_get(after, g.number) == (if is_sibling(pool, msg, f, g.number) {
        None
    } else {
        slot_get(before, g.number)
    }));
}

/// After clearing a field it reads as its default, and is no longer
/// stored.
pub proof fn law_read_after_clear(
    pool: PoolInner,
    msg: u32,
    f: FieldEntry,
    before: Seq<(u32, SlotModel)>,
    after: Seq<(u32, SlotModel)>,
)
    requires
        set_effect(pool, msg, f, before, after, None),
    ensures
        slot_get(after, f.number) is None,
        read_slot(pool, after, f) == default_for(pool, f),
{
}

/// Setting the same value twice stores what setting it once does.
pub proof fn law_set_idempotent(
    pool: PoolInner,
    msg: u32,
    f: FieldEntry,
    s0: Seq<(u32, SlotModel)>,
    s1: Seq<(u32, SlotModel)>,
    s2: Seq<(u32, SlotModel)>,
    v: ValueModel,
)
    requires
        set_effect(pool, msg, f, s0, s1, Some(v)),
        set_effect(pool, msg, f, s1, s2, Some(v)),
    ensures
        forall|n: u32| #[trigger] slot_get(s2, n) == slot_get(s1, n),
{
    assert forall|n: u32| #[trigger] slot_get(s2, n) == slot_get(s1, n) by {
        if n != f.number {
            assert(slot_get(s2, n) == (if is_sibling(pool, msg, f, n) {
                None
            } else {
                slot_get(s1, n)
            }));
            assert(slot_get(s1, n) == (if is_sibling(pool, msg, f, n) {
                None
            } else {
                slot_get(s0, n)
            }));
        }
    }
}

/// Clearing a field undoes setting it when nothing was stored for it or
/// for its oneof siblings before.
pub proof fn law_clear_undoes_set(
    pool: PoolInner,
    msg: u32,
    f: FieldEntry,
    s0: Seq<(u32, SlotModel)>,
    s1: Seq<(u32, SlotModel)>,
    s2: Seq<(u32, SlotModel)>,
    v: ValueModel,
)
    requires
        set_effect(pool, msg, f, s0, s1, Some(v)),
        set_effect(pool, msg, f, s1, s2, None),
        slot_get(s0, f.number) is None,
        forall|n: u32| #[trigger] is_sibling(pool, msg, f, n) && n != f.number ==> slot_get(s0, n) is None,
    ensures
        forall|n: u32| #[trigger] slot_get(s2, n) == slot_get(s0, n),
{
    assert forall|n: u32| #[trigger] slot_get(s2, n) == slot_get(s0, n) by {
        if n != f.number {
            assert(slot_get(s2, n) == (if is_sibling(pool, msg, f, n) {
                None
            } else {
                slot_get(s1, n)
            }));
            assert(slot_get(s1, n) == (if is_sibling(pool, msg, f, n) {
                None
            } else {
                slot_get(s0, n)
            }));
        }
    }
}

/// A 64-bit fixed value goes on the wire as its eight bytes in
/// little-endian order, low byte first: byte `i` is `(v / 256^i) % 256`.
/// That is the payload of a `fixed64` field and of a `double` (its bit
/// pattern). Read back, eight bytes `s` give `s[0] + 256 * s[1] + ... +
/// 256^7 * s[7]`.
pub proof fn law_fixed64_little_endian(v: u64, s: Seq<u8>)
    requires
        s.len() >= 8,
    ensures
        payload(KindRef::Fixed64, ValueModel::U64(v)) == seq![
            (v % 0x100) as u8,
            ((v / 0x100) % 0x100) as u8,
            ((v / 0x1_0000) % 0x100) as u8,
            ((v / 0x100_0000) % 0x100) as u8,
            ((v / 0x1_0000_0000) % 0x100) as u8,
            ((v / 0x100_0000_0000) % 0x100) as u8,
            ((v / 0x1_0000_0000_0000) % 0x100) as u8,
            ((v / 0x100_0000_0000_0000) % 0x100) as u8,
        ],
        payload(KindRef::Double, ValueModel::F64(v)) == payload(
            KindRef::Fixed64,
            ValueModel::U64(v),
        ),
        spec_le64(s) == s[0] + 0x100 * s[1] + 0x1_0000 * s[2] + 0x100_0000 * s[3] + 0x1_0000_0000
            * s[4] + 0x100_0000_0000 * s[5] + 0x1_0000_0000_0000 * s[6] + 0x100_0000_0000_0000
            * s[7],
{
    assert({
        &&& (v % 0x1_0000_0000) % 0x100 == v % 0x100
        &&& ((v % 0x1_0000_0000) / 0x100) % 0x100 == (v / 0x100) % 0x100
        &&& ((v % 0x1_0000_0000) / 0x1_0000) % 0x100 == (v / 0x1_0000) % 0x100
        &&& ((v % 0x1_0000_0000) / 0x100_0000) % 0x100 == (v / 0x100_0000) % 0x100
        &&& (v / 0x1_0000_0000) % 0x100 == (v / 0x1_0000_0000) % 0x100
        &&& ((v / 0x1_0000_0000) / 0x100) % 0x100 == (v / 0x100_0000_0000) % 0x100
        &&& ((v / 0x1_0000_0000) / 0x1_0000) % 0x100 == (v / 0x1_0000_0000_0000) % 0x100
        &&& ((v / 0x1_0000_0000) / 0x100_0000) % 0x100 == (v / 0x100_0000_0000_0000) % 0x100
    }) by (bit_vector);
    let lo = (v as nat) % 0x1_0000_0000;
    let hi = (v as nat) / 0x1_0000_0000;
    assert(spec_le64_bytes(v as nat) =~= spec_le32_bytes(lo) + spec_le32_bytes(hi));
    let t = s.skip(4);
    assert(t[0] == s[4] && t[1] == s[5] && t[2] == s[6] && t[3] == s[7]);
    assert(spec_le32(t) == s[4] + 0x100 * s[5] + 0x1_0000 * s[6] + 0x100_0000 * s[7]);
}

/// Packed encoding of a field built from descriptor `p`: only a repeated
/// field of a scalar or enum kind is ever packed. For such a field an
/// explicit `packed` option decides; without one it is packed exactly
/// when its file is proto3, so proto2 fields are not packed by default.
pub proof fn law_packed_by_default_in_proto3(
    e: FieldEntry,
    pool: PoolInner,
    scope: Seq<char>,
    proto3: bool,
    p: FieldDescriptorProto,
    pos: u32,
)
    requires
        spec_field_entry_matches(&e, &pool, scope, proto3, &p, pos),
    ensures
        e.is_packed ==> p.label == Some(Label::LabelRepeated) && !(e.kind is String
            || e.kind is Bytes || e.kind is Message),
        p.label == Some(Label::LabelRepeated) && !(e.kind is String || e.kind is Bytes
            || e.kind is Message) ==> e.is_packed == (match packed_option_of(&p) {
            Some(b) => b,
            None => proto3,
        }),
{
}

/// The first `n` mask items, all strings, give their paths in lower camel
/// case, in order.
proof fn lemma_mask_paths(paths: Seq<Seq<char>>, n: nat)
    requires
        n <= paths.len(),
    ensures
        mask_paths(paths.map_values(|p: Seq<char>| ValueModel::Str(p)), n) == paths.take(
            n as int,
        ).map_values(|p: Seq<char>| spec_lower_camel(p, false, true)),
    decreases n,
{
    let items = paths.map_values(|p: Seq<char>| ValueModel::Str(p));
    if n > 0 {
        lemma_mask_paths(paths, (n - 1) as nat);
        assert(items[n - 1] == ValueModel::Str(paths[n - 1]));
        assert(paths.take(n as int).map_values(|p: Seq<char>| spec_lower_camel(p, false, true))
            =~= paths.take(n - 1).map_values(|p: Seq<char>| spec_lower_camel(p, false, true)).push(
            spec_lower_camel(paths[n - 1], false, true),
        ));
    } else {
        assert(paths.take(0).map_values(|p: Seq<char>| spec_lower_camel(p, false, true))
            =~= Seq::<Seq<char>>::empty());
    }
}

/// The JSON of a `google.protobuf.FieldMask` is one string: its paths,
/// each converted to lowerCamelCase as `snake_to_lower_camel` converts it
/// (`user_id` to `userId`), joined by commas in their order.
pub proof fn law_field_mask_json(st: JsonStyle, m: MessageModel, depth: nat, paths: Seq<Seq<char>>)
    requires
        full_name_of(m) == "google.protobuf.FieldMask"@,
        named_value(m, "paths"@) == Some(
            ValueModel::List(paths.map_values(|p: Seq<char>| ValueModel::Str(p))),
        ),
    ensures
        msg_out(st, m, depth) == Outcome::Done(
            JsonModel::Str(
                comma_joined(paths.map_values(|p: Seq<char>| spec_lower_camel(p, false, true))),
            ),
        ),
{
    reveal_strlit("google.protobuf.FieldMask");
    reveal_strlit("google.protobuf.Empty");
    reveal_strlit("google.protobuf.Timestamp");
    reveal_strlit("google.protobuf.Duration");
    assert(wkt_names()[13] == "google.protobuf.FieldMask"@);
    assert(wkt_names().contains(full_name_of(m)));
    assert(full_name_of(m)[16] != "google.protobuf.Timestamp"@[16]);
    assert(full_name_of(m) != "google.protobuf.Empty"@);
    assert(full_name_of(m) != "google.protobuf.Duration"@);
    let items = paths.map_values(|p: Seq<char>| ValueModel::Str(p));
    lemma_mask_paths(paths, paths.len());
    assert(paths.take(paths.len() as int) =~= paths);
    assert(mask_paths(items, items.len()) == paths.map_values(
        |p: Seq<char>| spec_lower_camel(p, false, true),
    ));
}

} // verus!
