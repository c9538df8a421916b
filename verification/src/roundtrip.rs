//! Decoding what encoding writes gives the message back.

use vstd::prelude::*;
use vstd::utf8::encode_utf8;

use crate::codec::{
    delimited, enc_entries, enc_field, enc_key, enc_msg, enc_singular, enc_slots, enc_tag,
    enc_unknown, enc_unknowns, payload, payloads, singulars, wire_for,
};
use crate::pool_build::spec_is_packable;
use crate::decode::{
    dec_entry, dec_field, dec_group, dec_map_entry, dec_msg, dec_packed, dec_unknown, dec_value,
    finish_entry, key_model_of, spec_decode, spec_read_delimited,
};
use crate::error::DecodeError;
use crate::laws::{law_scalar_payload_roundtrip, lemma_delimited};
use crate::message::{
    add_unknown_map, entries_put, entry_by_number, field_is_map, fields_of, insert_entry_map,
    is_sibling, key_fits, key_index, kind_fits, lemma_entry_by_number, lemma_key_index,
    lemma_slot_get_index, lemma_sorted_slots, map_kinds, numbers_sorted, push_item_map, ready,
    set_map, slot_get, slot_view, stored_slot, MessageModel, SlotModel,
};
use crate::pool::{Cardinality, FieldEntry, KindRef, PoolInner};
use crate::value::{KeyModel, UnknownModel, ValueModel};
use crate::wire::{
    lemma_le32_roundtrip, lemma_le64_roundtrip, lemma_tag_roundtrip, lemma_varint_roundtrip,
    spec_decode_tag, spec_le32_bytes, spec_le64_bytes, spec_tag_value, spec_varint, WireType,
    MAX_FIELD_NUMBER,
};

verus! {

// ── what the wire format carries through ────────────────────────────────

/// A value of kind `k` the wire format carries through unchanged: it fits
/// the kind; strings and bytes fit a length prefix; a message nests at
/// most `depth` deep, its encoding fits a length prefix, and it is ready
/// itself.
pub open spec fn value_ready(pool: PoolInner, k: KindRef, v: ValueModel, depth: nat) -> bool
    decreases depth, 0nat,
{
    match v {
        ValueModel::Message(sub) => kind_fits(pool, k, v) && depth > 0 && enc_msg(sub).len() <= usize::MAX
            && msg_ready(sub, (depth - 1) as nat),
        ValueModel::Str(s) => kind_fits(pool, k, v) && encode_utf8(s).len() <= usize::MAX,
        ValueModel::Bytes(b) => kind_fits(pool, k, v) && b.len() <= usize::MAX,
        _ => kind_fits(pool, k, v),
    }
}

/// A list of repeated field `f` the wire format carries through: not
/// empty, every item ready, a packed list's payload fits a length prefix.
pub open spec fn list_ready(pool: PoolInner, f: FieldEntry, v: ValueModel, depth: nat) -> bool
    decreases depth, 1nat,
{
    match v {
        ValueModel::List(items) => items.len() > 0 && (forall|j: int|
            0 <= j < items.len() ==> value_ready(pool, f.kind, #[trigger] items[j], depth)) && (f.is_packed
            && spec_is_packable(f.kind) ==> payloads(f.kind, items).len() <= usize::MAX),
        _ => false,
    }
}

/// The bytes of a map entry inside its length prefix.
pub open spec fn entry_body(kk: KindRef, vk: KindRef, e: (KeyModel, ValueModel)) -> Seq<u8> {
    enc_key(kk, e.0) + enc_singular(2, vk, e.1)
}

/// A map of map field `f` the wire format carries through: not empty,
/// keys distinct and of the key kind (strings fitting a length prefix),
/// values ready, each entry fitting a length prefix.
pub open spec fn map_ready(pool: PoolInner, f: FieldEntry, v: ValueModel, depth: nat) -> bool
    decreases depth, 1nat,
{
    match (v, map_kinds(pool, f)) {
        (ValueModel::Mapping(es), Some((kk, vk))) => es.len() > 0 && (forall|i: int, j: int|
            0 <= i < j < es.len() ==> #[trigger] es[i].0 != #[trigger] es[j].0) && (forall|i: int|
            0 <= i < es.len() ==> key_fits(kk, #[trigger] es[i].0) && value_ready(pool, vk, es[i].1, depth)
                && (es[i].0 matches KeyModel::Str(t) ==> encode_utf8(t).len() <= usize::MAX)
                && entry_body(kk, vk, es[i]).len() <= usize::MAX),
        _ => false,
    }
}

/// The field number an unknown field carries.
pub open spec fn unknown_number(u: UnknownModel) -> u32 {
    match u {
        UnknownModel::Varint(m, _) => m,
        UnknownModel::Fixed64(m, _) => m,
        UnknownModel::Fixed32(m, _) => m,
        UnknownModel::LengthDelimited(m, _) => m,
        UnknownModel::Group(m, _) => m,
    }
}

/// An unknown field recorded under number `n` that the wire format
/// carries through unchanged: it carries number `n`, length-delimited
/// bytes fit a length prefix, and a group nests at most `depth` deep and
/// holds fields of valid numbers that are ready themselves.
pub open spec fn unknown_ready(n: u32, u: UnknownModel, depth: nat) -> bool
    decreases depth,
{
    match u {
        UnknownModel::Varint(m, _) => m == n,
        UnknownModel::Fixed64(m, _) => m == n,
        UnknownModel::Fixed32(m, _) => m == n,
        UnknownModel::LengthDelimited(m, b) => m == n && b.len() <= usize::MAX,
        UnknownModel::Group(m, g) => m == n && depth > 0 && forall|j: int|
            0 <= j < g.len() ==> 1 <= unknown_number(#[trigger] g[j]) <= MAX_FIELD_NUMBER && unknown_ready(
                unknown_number(g[j]),
                g[j],
                (depth - 1) as nat,
            ),
    }
}

/// A slot of a message of type `msg` the wire format carries through: a
/// valid field number; a value of a declared singular field, or unknown
/// fields of an undeclared number.
pub open spec fn slot_ready(pool: PoolInner, msg: u32, s: (u32, SlotModel), depth: nat) -> bool
    decreases depth, 2nat,
{
    &&& 1 <= s.0 <= MAX_FIELD_NUMBER
    &&& match s.1 {
        SlotModel::Value(v) => match entry_by_number(fields_of(pool, msg), s.0) {
            Some(f) => if field_is_map(pool, f) {
                map_ready(pool, f, v, depth)
            } else if f.cardinality == Cardinality::Repeated {
                list_ready(pool, f, v, depth)
            } else {
                value_ready(pool, f.kind, v, depth)
            },
            None => false,
        },
        SlotModel::Unknown(us) => entry_by_number(fields_of(pool, msg), s.0) is None && us.len() > 0
            && forall|j: int| 0 <= j < us.len() ==> unknown_ready(s.0, #[trigger] us[j], depth),
    }
}

/// No stored value belongs to a oneof another stored slot is a member of.
pub open spec fn no_sibling_slots(m: MessageModel) -> bool {
    forall|i: int, j: int|
        0 <= i < m.slots.len() && 0 <= j < m.slots.len() && i != j && #[trigger] m.slots[i].1 is Value
            && entry_by_number(fields_of(m.pool, m.index), m.slots[i].0) is Some ==> !is_sibling(
            m.pool,
            m.index,
            entry_by_number(fields_of(m.pool, m.index), m.slots[i].0)->0,
            #[trigger] m.slots[j].0,
        )
}

/// A message the wire format carries through unchanged: slots sorted by
/// number, each ready, no two members of one oneof.
pub open spec fn msg_ready(m: MessageModel, depth: nat) -> bool
    decreases depth, 3nat,
{
    &&& numbers_sorted(m.slots)
    &&& forall|i: int| 0 <= i < m.slots.len() ==> slot_ready(m.pool, m.index, #[trigger] m.slots[i], depth)
    &&& no_sibling_slots(m)
}

// ── sequences ───────────────────────────────────────────────────────────

proof fn lemma_skip_split(b: Seq<u8>, p: int, a: Seq<u8>)
    requires
        0 <= p,
        p + a.len() <= b.len(),
        b.subrange(p, p + a.len() as int) == a,
    ensures
        b.skip(p) == a + b.skip(p + a.len()),
{
    assert(b.skip(p) =~= a + b.skip(p + a.len()));
}

/// The map of a table grows by one slot when a slot with a new number is
/// appended.
proof fn lemma_view_push(s: Seq<(u32, SlotModel)>, e: (u32, SlotModel))
    requires
        forall|i: int| 0 <= i < s.len() ==> #[trigger] s[i].0 != e.0,
    ensures
        slot_view(s.push(e)) == slot_view(s).insert(e.0, e.1),
    decreases s.len(),
{
    let t = s.push(e);
    assert forall|m: u32| #[trigger] slot_get(t, m) == (if slot_get(s, m) is Some {
        slot_get(s, m)
    } else if m == e.0 {
        Some(e.1)
    } else {
        None
    }) by {
        lemma_slot_get_push(s, e, m);
    }
    let a = slot_view(t);
    let b = slot_view(s).insert(e.0, e.1);
    assert forall|m: u32| #[trigger] a.contains_key(m) == b.contains_key(m) && (a.contains_key(m) ==> a[m] == b[m]) by {
        if m == e.0 {
            lemma_slot_get_none(s, m);
        }
    }
    assert(a =~= b);
}

proof fn lemma_slot_get_none(s: Seq<(u32, SlotModel)>, m: u32)
    requires
        forall|i: int| 0 <= i < s.len() ==> #[trigger] s[i].0 != m,
    ensures
        slot_get(s, m) is None,
    decreases s.len(),
{
    if s.len() > 0 {
        let t = s.drop_first();
        assert forall|i: int| 0 <= i < t.len() implies #[trigger] t[i].0 != m by {
            assert(t[i] == s[i + 1]);
        }
        lemma_slot_get_none(t, m);
    }
}

proof fn lemma_slot_get_push(s: Seq<(u32, SlotModel)>, e: (u32, SlotModel), m: u32)
    ensures
        slot_get(s.push(e), m) == (if slot_get(s, m) is Some {
            slot_get(s, m)
        } else if m == e.0 {
            Some(e.1)
        } else {
            None
        }),
    decreases s.len(),
{
    let t = s.push(e);
    if s.len() == 0 {
        assert(t.drop_first() =~= Seq::<(u32, SlotModel)>::empty());
        assert(slot_get(t.drop_first(), m) is None);
        assert(t[0] == e);
        assert(slot_get(s, m) is None);
    } else {
        assert(t.drop_first() =~= s.drop_first().push(e));
        assert(t[0] == s[0]);
        lemma_slot_get_push(s.drop_first(), e, m);
    }
}

/// A number stored in the map of a table is the number of one of its
/// slots.
proof fn lemma_view_key(s: Seq<(u32, SlotModel)>, m: u32)
    requires
        slot_view(s).contains_key(m),
    ensures
        exists|i: int| 0 <= i < s.len() && #[trigger] s[i].0 == m,
    decreases s.len(),
{
    if s.len() > 0 && s[0].0 != m {
        let t = s.drop_first();
        assert(slot_get(s, m) == slot_get(t, m));
        assert(slot_view(t).contains_key(m));
        lemma_view_key(t, m);
        let i = choose|i: int| 0 <= i < t.len() && #[trigger] t[i].0 == m;
        assert(s[i + 1] == t[i]);
    }
}

// ── single records ──────────────────────────────────────────────────────

/// One record of a declared field: the message read from `p` on is what
/// is read after the record, from the field's effect on.
proof fn lemma_known_step(
    pool: PoolInner,
    msg: u32,
    mp: Map<u32, SlotModel>,
    b: Seq<u8>,
    p: nat,
    end: nat,
    depth: nat,
    n: u32,
    w: WireType,
    tl: nat,
    f: FieldEntry,
    mp2: Map<u32, SlotModel>,
    q2: nat,
)
    requires
        p < end,
        p <= b.len(),
        spec_decode_tag(b.skip(p as int)) == Ok::<(nat, WireType, nat), DecodeError>((n as nat, w, tl)),
        entry_by_number(fields_of(pool, msg), n) == Some(f),
        dec_field(pool, msg, mp, f, w, b, p + tl, depth) == Ok::<(Map<u32, SlotModel>, nat), DecodeError>((mp2, q2)),
        p < q2 <= b.len(),
    ensures
        dec_msg(pool, msg, mp, b, p, end, depth) == dec_msg(pool, msg, mp2, b, q2, end, depth),
{
    reveal(dec_msg);
    reveal(dec_field);
    reveal(dec_unknown);
}

/// One record of an undeclared field.
proof fn lemma_unknown_step(
    pool: PoolInner,
    msg: u32,
    mp: Map<u32, SlotModel>,
    b: Seq<u8>,
    p: nat,
    end: nat,
    depth: nat,
    n: u32,
    w: WireType,
    tl: nat,
    u: UnknownModel,
    q2: nat,
)
    requires
        p < end,
        p <= b.len(),
        spec_decode_tag(b.skip(p as int)) == Ok::<(nat, WireType, nat), DecodeError>((n as nat, w, tl)),
        entry_by_number(fields_of(pool, msg), n) is None,
        dec_unknown(n, w, b, p + tl, depth) == Ok::<(UnknownModel, nat), DecodeError>((u, q2)),
        p < q2 <= b.len(),
    ensures
        dec_msg(pool, msg, mp, b, p, end, depth) == dec_msg(
            pool,
            msg,
            add_unknown_map(mp, n, u),
            b,
            q2,
            end,
            depth,
        ),
{
    reveal(dec_msg);
    reveal(dec_field);
    reveal(dec_unknown);
}

/// The wire type an unknown field is written with.
pub open spec fn unknown_wire(u: UnknownModel) -> WireType {
    match u {
        UnknownModel::Varint(_, _) => WireType::Varint,
        UnknownModel::Fixed64(_, _) => WireType::Fixed64,
        UnknownModel::Fixed32(_, _) => WireType::Fixed32,
        UnknownModel::LengthDelimited(_, _) => WireType::LengthDelimited,
        UnknownModel::Group(_, _) => WireType::StartGroup,
    }
}

/// An unknown field's bytes after its tag.
pub open spec fn unknown_body(u: UnknownModel) -> Seq<u8> {
    match u {
        UnknownModel::Varint(_, v) => spec_varint(v as nat),
        UnknownModel::Fixed64(_, v) => spec_le64_bytes(v as nat),
        UnknownModel::Fixed32(_, v) => spec_le32_bytes(v as nat),
        UnknownModel::LengthDelimited(_, b) => delimited(b),
        UnknownModel::Group(n, g) => enc_unknowns(g) + enc_tag(n, WireType::EndGroup),
    }
}

proof fn lemma_unknown_split(u: UnknownModel, n: u32)
    requires
        unknown_number(u) == n,
    ensures
        enc_unknown(u) == enc_tag(n, unknown_wire(u)) + unknown_body(u),
{
    if let UnknownModel::Group(m, g) = u {
        assert(enc_unknown(u) =~= enc_tag(n, unknown_wire(u)) + unknown_body(u));
    }
}

/// The rest of group `n` holding `g`, from its `j`-th field on.
#[verifier::spinoff_prover]
#[verifier::rlimit(60)]
proof fn lemma_group_from(n: u32, g: Seq<UnknownModel>, j: nat, b: Seq<u8>, p: nat, d: nat)
    requires
        1 <= n <= MAX_FIELD_NUMBER,
        forall|i: int|
            0 <= i < g.len() ==> 1 <= unknown_number(#[trigger] g[i]) <= MAX_FIELD_NUMBER && unknown_ready(
                unknown_number(g[i]),
                g[i],
                d,
            ),
        j <= g.len(),
        p + enc_unknowns(g.subrange(j as int, g.len() as int)).len() + enc_tag(n, WireType::EndGroup).len() <= b.len(),
        b.subrange(p as int, (p + enc_unknowns(g.subrange(j as int, g.len() as int)).len() + enc_tag(n, WireType::EndGroup).len()) as int)
            == enc_unknowns(g.subrange(j as int, g.len() as int)) + enc_tag(n, WireType::EndGroup),
    ensures
        dec_group(n, b, p, d, g.take(j as int)) == Ok::<(UnknownModel, nat), DecodeError>(
            (
                UnknownModel::Group(n, g),
                p + enc_unknowns(g.subrange(j as int, g.len() as int)).len() + enc_tag(n, WireType::EndGroup).len(),
            ),
        ),
    decreases d, 1nat, g.len() - j,
{
    let t = g.subrange(j as int, g.len() as int);
    let endtag = enc_tag(n, WireType::EndGroup);
    let all = enc_unknowns(t) + endtag;
    if j == g.len() {
        assert(t =~= Seq::<UnknownModel>::empty());
        assert(g.take(j as int) =~= g);
        assert(b.subrange(p as int, (p + endtag.len()) as int) == endtag) by {
            assert(all =~= endtag);
        }
        lemma_skip_split(b, p as int, endtag);
        lemma_tag_roundtrip(n as nat, WireType::EndGroup, b.skip((p + endtag.len()) as int));
        reveal(dec_group);
    } else {
        let u = g[j as int];
        let rest = g.subrange(j as int + 1, g.len() as int);
        assert(t[0] == u);
        assert(t.subrange(1, t.len() as int) =~= rest);
        let num = unknown_number(u);
        let rec = enc_unknown(u);
        assert(enc_unknowns(t) == rec + enc_unknowns(rest));
        lemma_unknown_split(u, num);
        let tag = enc_tag(num, unknown_wire(u));
        let body = unknown_body(u);
        assert(b.subrange(p as int, (p + tag.len()) as int) == tag) by {
            assert(b.subrange(p as int, (p + tag.len()) as int) =~= all.subrange(0, tag.len() as int));
        }
        assert(b.subrange((p + tag.len()) as int, (p + rec.len()) as int) == body) by {
            assert(b.subrange((p + tag.len()) as int, (p + rec.len()) as int) =~= all.subrange(tag.len() as int, rec.len() as int));
        }
        lemma_skip_split(b, p as int, tag);
        lemma_tag_roundtrip(num as nat, unknown_wire(u), b.skip((p + tag.len()) as int));
        crate::wire::lemma_varint_len(spec_tag_value(num as nat, unknown_wire(u)));
        lemma_unknown_body(num, u, b, p + tag.len(), d);
        assert(dec_group(n, b, p, d, g.take(j as int)) == dec_group(n, b, p + rec.len(), d, g.take(j as int).push(u))) by {
            reveal(dec_group);
            reveal(dec_unknown);
        }
        assert(g.take(j as int).push(u) =~= g.take(j as int + 1));
        assert(b.subrange((p + rec.len()) as int, (p + rec.len() + enc_unknowns(rest).len() + endtag.len()) as int) == enc_unknowns(rest) + endtag) by {
            assert(b.subrange((p + rec.len()) as int, (p + rec.len() + enc_unknowns(rest).len() + endtag.len()) as int) =~= all.subrange(rec.len() as int, all.len() as int));
        }
        lemma_group_from(n, g, j + 1, b, p + rec.len(), d);
    }
}

/// Reading back the body of a ready unknown field gives the field.
proof fn lemma_unknown_body(n: u32, u: UnknownModel, b: Seq<u8>, pos: nat, depth: nat)
    requires
        1 <= n <= MAX_FIELD_NUMBER,
        unknown_ready(n, u, depth),
        pos + unknown_body(u).len() <= b.len(),
        b.subrange(pos as int, (pos + unknown_body(u).len()) as int) == unknown_body(u),
    ensures
        dec_unknown(n, unknown_wire(u), b, pos, depth) == Ok::<(UnknownModel, nat), DecodeError>(
            (u, pos + unknown_body(u).len()),
        ),
    decreases depth, 0nat, 0nat,
{
    reveal(dec_unknown);
    reveal(dec_group);
    let body = unknown_body(u);
    lemma_skip_split(b, pos as int, body);
    let rest = b.skip((pos + body.len()) as int);
    match u {
        UnknownModel::Varint(_, v) => {
            lemma_varint_roundtrip(v, rest);
        },
        UnknownModel::Fixed64(_, v) => {
            lemma_le64_roundtrip(v as nat, rest);
        },
        UnknownModel::Fixed32(_, v) => {
            lemma_le32_roundtrip(v as nat, rest);
        },
        UnknownModel::LengthDelimited(_, bs) => {
            lemma_delimited(bs, rest);
        },
        UnknownModel::Group(m, g) => {
            assert(g.subrange(0, g.len() as int) =~= g);
            assert(g.take(0) =~= Seq::<UnknownModel>::empty());
            lemma_group_from(n, g, 0, b, pos, (depth - 1) as nat);
        },
    }
}

/// Reading back a value's payload gives the value.
#[verifier::spinoff_prover]
#[verifier::rlimit(60)]
proof fn lemma_value(pool: PoolInner, k: KindRef, v: ValueModel, b: Seq<u8>, pos: nat, depth: nat)
    requires
        value_ready(pool, k, v, depth),
        pos + payload(k, v).len() <= b.len(),
        b.subrange(pos as int, (pos + payload(k, v).len()) as int) == payload(k, v),
    ensures
        dec_value(pool, k, wire_for(k), b, pos, depth) == Ok::<(ValueModel, nat), DecodeError>(
            (v, pos + payload(k, v).len()),
        ),
    decreases depth, 0nat, 0nat,
{
    reveal(dec_value);
    reveal(dec_msg);
    let pl = payload(k, v);
    lemma_skip_split(b, pos as int, pl);
    match v {
        ValueModel::Message(sub) => {
            let i = k->Message_0;
            let body = enc_msg(sub);
            assert(pl == delimited(body));
            lemma_delimited(body, b.skip((pos + pl.len()) as int));
            let start = (pos + pl.len() - body.len()) as nat;
            assert(b.subrange(start as int, (start + body.len()) as int) == body) by {
                assert(b.subrange(start as int, (start + body.len()) as int) =~= pl.subrange((pl.len() - body.len()) as int, pl.len() as int));
            }
            assert(sub.slots.subrange(0, sub.slots.len() as int) =~= sub.slots);
            lemma_dec_tail(sub, (depth - 1) as nat, 0, b, start, start + body.len());
            assert(slot_view(sub.slots.take(0)) =~= Map::<u32, SlotModel>::empty());
            lemma_sorted_slots(sub.slots);
        },
        _ => {
            law_scalar_payload_roundtrip(pool, k, v, b.skip((pos + pl.len()) as int));
        },
    }
}

/// A singular field's record stores the value read.
proof fn lemma_field_singular(
    pool: PoolInner,
    msg: u32,
    mp: Map<u32, SlotModel>,
    f: FieldEntry,
    w: WireType,
    b: Seq<u8>,
    pos: nat,
    depth: nat,
    v: ValueModel,
    q: nat,
)
    requires
        !field_is_map(pool, f),
        f.cardinality != Cardinality::Repeated,
        dec_value(pool, f.kind, w, b, pos, depth) == Ok::<(ValueModel, nat), DecodeError>((v, q)),
    ensures
        dec_field(pool, msg, mp, f, w, b, pos, depth) == Ok::<(Map<u32, SlotModel>, nat), DecodeError>(
            (set_map(pool, msg, f, mp, v), q),
        ),
{
    reveal(dec_field);
    reveal(crate::decode::dec_map_entry);
    reveal(crate::decode::dec_packed);
    reveal(dec_value);
}

/// Setting a field no stored number shares a oneof with only adds it.
proof fn lemma_set_map_insert(pool: PoolInner, msg: u32, f: FieldEntry, mp: Map<u32, SlotModel>, v: ValueModel)
    requires
        forall|x: u32| #[trigger] mp.contains_key(x) ==> !is_sibling(pool, msg, f, x),
    ensures
        set_map(pool, msg, f, mp, v) == mp.insert(f.number, SlotModel::Value(v)),
{
    assert(set_map(pool, msg, f, mp, v) =~= mp.insert(f.number, SlotModel::Value(v)));
}

/// A list item's record (not packed) appends the value read.
proof fn lemma_field_item(
    pool: PoolInner,
    msg: u32,
    mp: Map<u32, SlotModel>,
    f: FieldEntry,
    w: WireType,
    b: Seq<u8>,
    pos: nat,
    depth: nat,
    v: ValueModel,
    q: nat,
)
    requires
        !field_is_map(pool, f),
        f.cardinality == Cardinality::Repeated,
        !(w == WireType::LengthDelimited && wire_for(f.kind) != WireType::LengthDelimited),
        dec_value(pool, f.kind, w, b, pos, depth) == Ok::<(ValueModel, nat), DecodeError>((v, q)),
    ensures
        dec_field(pool, msg, mp, f, w, b, pos, depth) == Ok::<(Map<u32, SlotModel>, nat), DecodeError>(
            (push_item_map(ready(pool, msg, f, mp, ValueModel::List(seq![])), f.number, v), q),
        ),
{
    reveal(dec_field);
    reveal(crate::decode::dec_map_entry);
    reveal(dec_packed);
    reveal(dec_value);
}

/// A packed list's record reads its items from the payload.
proof fn lemma_field_packed(
    pool: PoolInner,
    msg: u32,
    mp: Map<u32, SlotModel>,
    f: FieldEntry,
    b: Seq<u8>,
    pos: nat,
    depth: nat,
    body: Seq<u8>,
    t: nat,
)
    requires
        !field_is_map(pool, f),
        f.cardinality == Cardinality::Repeated,
        wire_for(f.kind) != WireType::LengthDelimited,
        spec_read_delimited(b.skip(pos as int)) == Ok::<(Seq<u8>, nat), DecodeError>((body, t)),
    ensures
        dec_field(pool, msg, mp, f, WireType::LengthDelimited, b, pos, depth) == match dec_packed(
            pool,
            f,
            ready(pool, msg, f, mp, ValueModel::List(seq![])),
            b,
            (pos + t - body.len()) as nat,
            pos + t,
            depth,
        ) {
            Ok(mp2) => Ok::<(Map<u32, SlotModel>, nat), DecodeError>((mp2, pos + t)),
            Err(e) => Err::<(Map<u32, SlotModel>, nat), DecodeError>(e),
        },
{
    reveal(dec_field);
    reveal(crate::decode::dec_map_entry);
    reveal(dec_packed);
    reveal(dec_value);
}

/// A scalar's payload is not empty.
proof fn lemma_payload_nonempty(pool: PoolInner, k: KindRef, v: ValueModel)
    requires
        kind_fits(pool, k, v),
        spec_is_packable(k),
    ensures
        payload(k, v).len() > 0,
{
    match (k, v) {
        (KindRef::Bool, ValueModel::Bool(x)) => crate::wire::lemma_varint_len(if x { 1 } else { 0 }),
        (KindRef::Int32, ValueModel::I32(x)) => crate::wire::lemma_varint_len(crate::wire::spec_u64_of_int(x as int)),
        (KindRef::Int64, ValueModel::I64(x)) => crate::wire::lemma_varint_len(crate::wire::spec_u64_of_int(x as int)),
        (KindRef::Uint32, ValueModel::U32(x)) => crate::wire::lemma_varint_len(x as nat),
        (KindRef::Uint64, ValueModel::U64(x)) => crate::wire::lemma_varint_len(x as nat),
        (KindRef::Sint32, ValueModel::I32(x)) => crate::wire::lemma_varint_len(crate::wire::spec_zigzag(x as int)),
        (KindRef::Sint64, ValueModel::I64(x)) => crate::wire::lemma_varint_len(crate::wire::spec_zigzag(x as int)),
        (KindRef::Enum(_), ValueModel::EnumNumber(x)) => crate::wire::lemma_varint_len(crate::wire::spec_u64_of_int(x as int)),
        _ => {},
    }
}

/// The items of a packed list, from the `j`-th on.
#[verifier::spinoff_prover]
#[verifier::rlimit(60)]
proof fn lemma_packed_from(
    pool: PoolInner,
    f: FieldEntry,
    mp: Map<u32, SlotModel>,
    items: Seq<ValueModel>,
    j: nat,
    b: Seq<u8>,
    q: nat,
    limit: nat,
    depth: nat,
)
    requires
        spec_is_packable(f.kind),
        forall|i: int| 0 <= i < items.len() ==> value_ready(pool, f.kind, #[trigger] items[i], depth),
        j <= items.len(),
        q <= limit <= b.len(),
        b.subrange(q as int, limit as int) == payloads(f.kind, items.subrange(j as int, items.len() as int)),
    ensures
        dec_packed(pool, f, mp.insert(f.number, SlotModel::Value(ValueModel::List(items.take(j as int)))), b, q, limit, depth)
            == Ok::<Map<u32, SlotModel>, DecodeError>(mp.insert(f.number, SlotModel::Value(ValueModel::List(items)))),
    decreases depth, 1nat, items.len() - j,
{
    let n = f.number;
    let t = items.subrange(j as int, items.len() as int);
    let mj = mp.insert(n, SlotModel::Value(ValueModel::List(items.take(j as int))));
    if j == items.len() {
        assert(items.take(j as int) =~= items);
        assert(t =~= Seq::<ValueModel>::empty());
        reveal(dec_packed);
    } else {
        let v = items[j as int];
        let rest = items.subrange(j as int + 1, items.len() as int);
        assert(t[0] == v);
        assert(t.subrange(1, t.len() as int) =~= rest);
        let pl = payload(f.kind, v);
        assert(payloads(f.kind, t) == pl + payloads(f.kind, rest));
        assert(value_ready(pool, f.kind, v, depth));
        lemma_payload_nonempty(pool, f.kind, v);
        assert(b.subrange(q as int, (q + pl.len()) as int) == pl) by {
            assert(b.subrange(q as int, (q + pl.len()) as int) =~= b.subrange(q as int, limit as int).subrange(0, pl.len() as int));
        }
        assert(b.subrange((q + pl.len()) as int, limit as int) == payloads(f.kind, rest)) by {
            assert(b.subrange((q + pl.len()) as int, limit as int) =~= b.subrange(q as int, limit as int).subrange(pl.len() as int, (limit - q) as int));
        }
        lemma_value(pool, f.kind, v, b, q, depth);
        assert(push_item_map(mj, n, v) =~= mp.insert(n, SlotModel::Value(ValueModel::List(items.take(j as int + 1))))) by {
            assert(items.take(j as int).push(v) =~= items.take(j as int + 1));
            assert(stored_slot(mj, n) == Some(SlotModel::Value(ValueModel::List(items.take(j as int)))));
        }
        assert(dec_packed(pool, f, mj, b, q, limit, depth) == dec_packed(pool, f, push_item_map(mj, n, v), b, q + pl.len(), limit, depth)) by {
            reveal(dec_packed);
            reveal(dec_value);
        }
        lemma_packed_from(pool, f, mp, items, j + 1, b, q + pl.len(), limit, depth);
    }
}

/// The records of a list written one per item, from the `j`-th on.
#[verifier::spinoff_prover]
#[verifier::rlimit(60)]
proof fn lemma_items_from(
    pool: PoolInner,
    msg: u32,
    mp: Map<u32, SlotModel>,
    f: FieldEntry,
    items: Seq<ValueModel>,
    j: nat,
    b: Seq<u8>,
    p: nat,
    end: nat,
    depth: nat,
)
    requires
        1 <= f.number <= MAX_FIELD_NUMBER,
        entry_by_number(fields_of(pool, msg), f.number) == Some(f),
        !field_is_map(pool, f),
        f.cardinality == Cardinality::Repeated,
        forall|i: int| 0 <= i < items.len() ==> value_ready(pool, f.kind, #[trigger] items[i], depth),
        !mp.contains_key(f.number),
        forall|x: u32| #[trigger] mp.contains_key(x) ==> !is_sibling(pool, msg, f, x),
        0 < j <= items.len() || (j == 0 && items.len() > 0),
        p + singulars(f.number, f.kind, items.subrange(j as int, items.len() as int)).len() <= end <= b.len(),
        b.subrange(p as int, (p + singulars(f.number, f.kind, items.subrange(j as int, items.len() as int)).len()) as int)
            == singulars(f.number, f.kind, items.subrange(j as int, items.len() as int)),
    ensures
        dec_msg(
            pool,
            msg,
            if j == 0 {
                mp
            } else {
                mp.insert(f.number, SlotModel::Value(ValueModel::List(items.take(j as int))))
            },
            b,
            p,
            end,
            depth,
        ) == dec_msg(
            pool,
            msg,
            mp.insert(f.number, SlotModel::Value(ValueModel::List(items))),
            b,
            p + singulars(f.number, f.kind, items.subrange(j as int, items.len() as int)).len(),
            end,
            depth,
        ),
    decreases depth, 1nat, items.len() - j,
{
    let n = f.number;
    let kd = f.kind;
    let t = items.subrange(j as int, items.len() as int);
    if j == items.len() {
        assert(items.take(j as int) =~= items);
        assert(t =~= Seq::<ValueModel>::empty());
    } else {
        let v = items[j as int];
        let rest = items.subrange(j as int + 1, items.len() as int);
        assert(t[0] == v);
        assert(t.subrange(1, t.len() as int) =~= rest);
        let rec = enc_singular(n, kd, v);
        assert(singulars(n, kd, t) == rec + singulars(n, kd, rest));
        let tag = enc_tag(n, wire_for(kd));
        let pl = payload(kd, v);
        assert(rec == tag + pl);
        assert(b.subrange(p as int, (p + rec.len()) as int) == rec) by {
            assert(b.subrange(p as int, (p + rec.len()) as int) =~= singulars(n, kd, t).subrange(0, rec.len() as int));
        }
        assert(b.subrange(p as int, (p + tag.len()) as int) == tag) by {
            assert(b.subrange(p as int, (p + tag.len()) as int) =~= rec.subrange(0, tag.len() as int));
        }
        assert(b.subrange((p + tag.len()) as int, (p + rec.len()) as int) == pl) by {
            assert(b.subrange((p + tag.len()) as int, (p + rec.len()) as int) =~= rec.subrange(tag.len() as int, rec.len() as int));
        }
        lemma_skip_split(b, p as int, tag);
        lemma_tag_roundtrip(n as nat, wire_for(kd), b.skip((p + tag.len()) as int));
        crate::wire::lemma_varint_len(spec_tag_value(n as nat, wire_for(kd)));
        assert(value_ready(pool, kd, v, depth));
        lemma_value(pool, kd, v, b, p + tag.len(), depth);
        let mj = if j == 0 {
            mp
        } else {
            mp.insert(n, SlotModel::Value(ValueModel::List(items.take(j as int))))
        };
        lemma_field_item(pool, msg, mj, f, wire_for(kd), b, p + tag.len(), depth, v, p + rec.len());
        assert(push_item_map(ready(pool, msg, f, mj, ValueModel::List(seq![])), n, v) =~= mp.insert(
            n,
            SlotModel::Value(ValueModel::List(items.take(j as int + 1))),
        )) by {
            assert(items.take(j as int).push(v) =~= items.take(j as int + 1));
            if j == 0 {
                lemma_set_map_insert(pool, msg, f, mp, ValueModel::List(seq![]));
                assert(items.take(0) =~= Seq::<ValueModel>::empty());
            }
        }
        lemma_known_step(
            pool,
            msg,
            mj,
            b,
            p,
            end,
            depth,
            n,
            wire_for(kd),
            tag.len(),
            f,
            mp.insert(n, SlotModel::Value(ValueModel::List(items.take(j as int + 1)))),
            p + rec.len(),
        );
        assert(b.subrange((p + rec.len()) as int, (p + rec.len() + singulars(n, kd, rest).len()) as int) == singulars(n, kd, rest)) by {
            assert(b.subrange((p + rec.len()) as int, (p + rec.len() + singulars(n, kd, rest).len()) as int) =~= singulars(n, kd, t).subrange(rec.len() as int, singulars(n, kd, t).len() as int));
        }
        lemma_items_from(pool, msg, mp, f, items, j + 1, b, p + rec.len(), end, depth);
    }
}

// ── slots ───────────────────────────────────────────────────────────────

/// The bytes one slot is written as (see `enc_slots`).
pub open spec fn slot_bytes(pool: PoolInner, msg: u32, s: (u32, SlotModel)) -> Seq<u8> {
    match s.1 {
        SlotModel::Value(v) => match entry_by_number(fields_of(pool, msg), s.0) {
            Some(f) => enc_field(pool, f, v),
            None => seq![],
        },
        SlotModel::Unknown(us) => enc_unknowns(us),
    }
}

/// The unknown fields `us` of number `n`, from the `j`-th on.
#[verifier::spinoff_prover]
#[verifier::rlimit(60)]
proof fn lemma_unknowns_from(
    pool: PoolInner,
    msg: u32,
    mp: Map<u32, SlotModel>,
    n: u32,
    us: Seq<UnknownModel>,
    j: nat,
    b: Seq<u8>,
    p: nat,
    end: nat,
    depth: nat,
)
    requires
        1 <= n <= MAX_FIELD_NUMBER,
        entry_by_number(fields_of(pool, msg), n) is None,
        forall|i: int| 0 <= i < us.len() ==> unknown_ready(n, #[trigger] us[i], depth),
        !mp.contains_key(n),
        0 < j <= us.len() || (j == 0 && us.len() > 0),
        p + enc_unknowns(us.subrange(j as int, us.len() as int)).len() <= end <= b.len(),
        b.subrange(p as int, (p + enc_unknowns(us.subrange(j as int, us.len() as int)).len()) as int)
            == enc_unknowns(us.subrange(j as int, us.len() as int)),
    ensures
        dec_msg(
            pool,
            msg,
            if j == 0 {
                mp
            } else {
                mp.insert(n, SlotModel::Unknown(us.take(j as int)))
            },
            b,
            p,
            end,
            depth,
        ) == dec_msg(
            pool,
            msg,
            mp.insert(n, SlotModel::Unknown(us)),
            b,
            p + enc_unknowns(us.subrange(j as int, us.len() as int)).len(),
            end,
            depth,
        ),
    decreases us.len() - j,
{
    let t = us.subrange(j as int, us.len() as int);
    if j == us.len() {
        assert(us.take(j as int) =~= us);
        assert(t =~= Seq::<UnknownModel>::empty());
    } else {
        let u = us[j as int];
        let rest = us.subrange(j as int + 1, us.len() as int);
        assert(t.subrange(1, t.len() as int) =~= rest);
        assert(t[0] == u);
        let rec = enc_unknown(u);
        assert(enc_unknowns(t) == rec + enc_unknowns(rest));
        lemma_unknown_split(u, n);
        let tag = enc_tag(n, unknown_wire(u));
        let body = unknown_body(u);
        assert(rec == tag + body);
        assert(b.subrange(p as int, (p + rec.len()) as int) == rec) by {
            assert(b.subrange(p as int, (p + rec.len()) as int) =~= enc_unknowns(t).subrange(0, rec.len() as int));
        }
        assert(b.subrange(p as int, (p + tag.len()) as int) == tag) by {
            assert(b.subrange(p as int, (p + tag.len()) as int) =~= rec.subrange(0, tag.len() as int));
        }
        assert(b.subrange((p + tag.len()) as int, (p + rec.len()) as int) == body) by {
            assert(b.subrange((p + tag.len()) as int, (p + rec.len()) as int) =~= rec.subrange(tag.len() as int, rec.len() as int));
        }
        lemma_skip_split(b, p as int, tag);
        lemma_tag_roundtrip(n as nat, unknown_wire(u), b.skip((p + tag.len()) as int));
        crate::wire::lemma_varint_len(spec_tag_value(n as nat, unknown_wire(u)));
        lemma_unknown_body(n, u, b, p + tag.len(), depth);
        let mj = if j == 0 {
            mp
        } else {
            mp.insert(n, SlotModel::Unknown(us.take(j as int)))
        };
        lemma_unknown_step(pool, msg, mj, b, p, end, depth, n, unknown_wire(u), tag.len(), u, p + rec.len());
        assert(add_unknown_map(mj, n, u) =~= mp.insert(n, SlotModel::Unknown(us.take(j as int + 1)))) by {
            assert(us.take(j as int).push(u) =~= us.take(j as int + 1));
            if j == 0 {
                assert(crate::message::stored_slot(mj, n) is None);
                assert(seq![u] =~= us.take(1));
            } else {
                assert(crate::message::stored_slot(mj, n) == Some(SlotModel::Unknown(us.take(j as int))));
            }
        }
        assert(b.subrange((p + rec.len()) as int, (p + rec.len() + enc_unknowns(rest).len()) as int) == enc_unknowns(rest)) by {
            assert(b.subrange((p + rec.len()) as int, (p + rec.len() + enc_unknowns(rest).len()) as int) =~= enc_unknowns(t).subrange(rec.len() as int, enc_unknowns(t).len() as int));
        }
        lemma_unknowns_from(pool, msg, mp, n, us, j + 1, b, p + rec.len(), end, depth);
    }
}

/// The value a map key is read as.
pub open spec fn key_value(key: KeyModel) -> ValueModel {
    match key {
        KeyModel::Bool(b) => ValueModel::Bool(b),
        KeyModel::I32(x) => ValueModel::I32(x),
        KeyModel::I64(x) => ValueModel::I64(x),
        KeyModel::U32(x) => ValueModel::U32(x),
        KeyModel::U64(x) => ValueModel::U64(x),
        KeyModel::Str(t) => ValueModel::Str(t),
    }
}

proof fn lemma_key_encoding(pool: PoolInner, kk: KindRef, key: KeyModel)
    requires
        key_fits(kk, key),
    ensures
        enc_key(kk, key) == enc_tag(1, wire_for(kk)) + payload(kk, key_value(key)),
        key_model_of(key_value(key)) == Some(key),
        kind_fits(pool, kk, key_value(key)),
{
}

/// The fields of a map entry read back as its key and value.
proof fn lemma_entry_fields(
    pool: PoolInner,
    kk: KindRef,
    vk: KindRef,
    e: (KeyModel, ValueModel),
    b: Seq<u8>,
    start: nat,
    limit: nat,
    depth: nat,
)
    requires
        key_fits(kk, e.0),
        e.0 matches KeyModel::Str(t) ==> encode_utf8(t).len() <= usize::MAX,
        value_ready(pool, vk, e.1, depth),
        start + entry_body(kk, vk, e).len() == limit,
        limit <= b.len(),
        b.subrange(start as int, limit as int) == entry_body(kk, vk, e),
    ensures
        dec_entry(pool, kk, vk, b, start, limit, depth, None, None) == Ok::<
            (Option<ValueModel>, Option<ValueModel>),
            DecodeError,
        >((Some(key_value(e.0)), Some(e.1))),
    decreases depth, 1nat, 0nat,
{
    let kv = key_value(e.0);
    lemma_key_encoding(pool, kk, e.0);
    let t1 = enc_tag(1, wire_for(kk));
    let p1 = payload(kk, kv);
    let t2 = enc_tag(2, wire_for(vk));
    let p2 = payload(vk, e.1);
    let body = entry_body(kk, vk, e);
    assert(body =~= t1 + p1 + t2 + p2);
    let a = start;
    let c = start + t1.len();
    let d = c + p1.len();
    let g = d + t2.len();
    assert(b.subrange(a as int, c as int) == t1) by {
        assert(b.subrange(a as int, c as int) =~= body.subrange(0, t1.len() as int));
    }
    assert(b.subrange(c as int, d as int) == p1) by {
        assert(b.subrange(c as int, d as int) =~= body.subrange(t1.len() as int, (t1.len() + p1.len()) as int));
    }
    assert(b.subrange(d as int, g as int) == t2) by {
        assert(b.subrange(d as int, g as int) =~= body.subrange((t1.len() + p1.len()) as int, (t1.len() + p1.len() + t2.len()) as int));
    }
    assert(b.subrange(g as int, limit as int) == p2) by {
        assert(b.subrange(g as int, limit as int) =~= body.subrange((t1.len() + p1.len() + t2.len()) as int, body.len() as int));
    }
    lemma_skip_split(b, a as int, t1);
    lemma_tag_roundtrip(1, wire_for(kk), b.skip(c as int));
    crate::wire::lemma_varint_len(spec_tag_value(1, wire_for(kk)));
    lemma_value(pool, kk, kv, b, c, depth);
    lemma_skip_split(b, d as int, t2);
    lemma_tag_roundtrip(2, wire_for(vk), b.skip(g as int));
    crate::wire::lemma_varint_len(spec_tag_value(2, wire_for(vk)));
    lemma_value(pool, vk, e.1, b, g, depth);
    assert(dec_entry(pool, kk, vk, b, a, limit, depth, None, None) == dec_entry(pool, kk, vk, b, d, limit, depth, Some(kv), None)) by {
        reveal(dec_entry);
        reveal(dec_value);
        reveal(dec_unknown);
    }
    assert(dec_entry(pool, kk, vk, b, d, limit, depth, Some(kv), None) == dec_entry(pool, kk, vk, b, limit, limit, depth, Some(kv), Some(e.1))) by {
        reveal(dec_entry);
        reveal(dec_value);
        reveal(dec_unknown);
    }
    assert(dec_entry(pool, kk, vk, b, limit, limit, depth, Some(kv), Some(e.1)) == Ok::<
        (Option<ValueModel>, Option<ValueModel>),
        DecodeError,
    >((Some(kv), Some(e.1)))) by {
        reveal(dec_entry);
    }
}

/// A map entry's record stores the entry read.
#[verifier::spinoff_prover]
#[verifier::rlimit(60)]
proof fn lemma_field_map(
    pool: PoolInner,
    msg: u32,
    mp: Map<u32, SlotModel>,
    f: FieldEntry,
    b: Seq<u8>,
    pos: nat,
    depth: nat,
    body: Seq<u8>,
    t: nat,
    kk: KindRef,
    vk: KindRef,
)
    requires
        field_is_map(pool, f),
        map_kinds(pool, f) == Some((kk, vk)),
        spec_read_delimited(b.skip(pos as int)) == Ok::<(Seq<u8>, nat), DecodeError>((body, t)),
    ensures
        dec_field(pool, msg, mp, f, WireType::LengthDelimited, b, pos, depth) == finish_entry(
            pool,
            msg,
            mp,
            f,
            kk,
            vk,
            dec_entry(pool, kk, vk, b, (pos + t - body.len()) as nat, pos + t, depth, None, None),
            pos + t,
        ),
{
    reveal(dec_field);
    reveal(dec_map_entry);
    reveal(dec_entry);
    reveal(dec_packed);
    reveal(dec_value);
}

/// The records of entries `es` of map field `f`.
pub open spec fn map_bytes(pool: PoolInner, f: FieldEntry, es: Seq<(KeyModel, ValueModel)>) -> Seq<u8> {
    match map_kinds(pool, f) {
        Some((kk, vk)) => enc_entries(f.number, kk, vk, es),
        None => seq![],
    }
}

/// The records of a map's entries, from the `j`-th on.
#[verifier::spinoff_prover]
#[verifier::rlimit(60)]
proof fn lemma_entries_from(
    pool: PoolInner,
    msg: u32,
    mp: Map<u32, SlotModel>,
    f: FieldEntry,
    es: Seq<(KeyModel, ValueModel)>,
    j: nat,
    b: Seq<u8>,
    p: nat,
    end: nat,
    depth: nat,
)
    requires
        1 <= f.number <= MAX_FIELD_NUMBER,
        entry_by_number(fields_of(pool, msg), f.number) == Some(f),
        field_is_map(pool, f),
        map_ready(pool, f, ValueModel::Mapping(es), depth),
        !mp.contains_key(f.number),
        forall|x: u32| #[trigger] mp.contains_key(x) ==> !is_sibling(pool, msg, f, x),
        0 < j <= es.len() || (j == 0 && es.len() > 0),
        p + map_bytes(pool, f, es.subrange(j as int, es.len() as int)).len() <= end <= b.len(),
        b.subrange(p as int, (p + map_bytes(pool, f, es.subrange(j as int, es.len() as int)).len()) as int)
            == map_bytes(pool, f, es.subrange(j as int, es.len() as int)),
    ensures
        dec_msg(
            pool,
            msg,
            if j == 0 {
                mp
            } else {
                mp.insert(f.number, SlotModel::Value(ValueModel::Mapping(es.take(j as int))))
            },
            b,
            p,
            end,
            depth,
        ) == dec_msg(
            pool,
            msg,
            mp.insert(f.number, SlotModel::Value(ValueModel::Mapping(es))),
            b,
            p + map_bytes(pool, f, es.subrange(j as int, es.len() as int)).len(),
            end,
            depth,
        ),
    decreases depth, 2nat, es.len() - j,
{
    let n = f.number;
    let kinds = map_kinds(pool, f)->0;
    let kk = kinds.0;
    let vk = kinds.1;
    let t = es.subrange(j as int, es.len() as int);
    if j == es.len() {
        assert(es.take(j as int) =~= es);
        assert(t =~= Seq::<(KeyModel, ValueModel)>::empty());
    } else {
        let e = es[j as int];
        let rest = es.subrange(j as int + 1, es.len() as int);
        assert(t[0] == e);
        assert(t.subrange(1, t.len() as int) =~= rest);
        let body = entry_body(kk, vk, e);
        let tag = enc_tag(n, WireType::LengthDelimited);
        let rec = tag + delimited(body);
        assert(enc_entries(n, kk, vk, t) == rec + enc_entries(n, kk, vk, rest));
        assert(b.subrange(p as int, (p + rec.len()) as int) == rec) by {
            assert(b.subrange(p as int, (p + rec.len()) as int) =~= enc_entries(n, kk, vk, t).subrange(0, rec.len() as int));
        }
        assert(b.subrange(p as int, (p + tag.len()) as int) == tag) by {
            assert(b.subrange(p as int, (p + tag.len()) as int) =~= rec.subrange(0, tag.len() as int));
        }
        assert(b.subrange((p + tag.len()) as int, (p + rec.len()) as int) == delimited(body)) by {
            assert(b.subrange((p + tag.len()) as int, (p + rec.len()) as int) =~= rec.subrange(tag.len() as int, rec.len() as int));
        }
        assert(key_fits(kk, e.0) && value_ready(pool, vk, e.1, depth) && body.len() <= usize::MAX);
        lemma_skip_split(b, p as int, tag);
        lemma_tag_roundtrip(n as nat, WireType::LengthDelimited, b.skip((p + tag.len()) as int));
        crate::wire::lemma_varint_len(spec_tag_value(n as nat, WireType::LengthDelimited));
        lemma_skip_split(b, (p + tag.len()) as int, delimited(body));
        lemma_delimited(body, b.skip((p + rec.len()) as int));
        let start = (p + rec.len() - body.len()) as nat;
        assert(b.subrange(start as int, (p + rec.len()) as int) == body) by {
            assert(b.subrange(start as int, (p + rec.len()) as int) =~= delimited(body).subrange((delimited(body).len() - body.len()) as int, delimited(body).len() as int));
        }
        lemma_entry_fields(pool, kk, vk, e, b, start, p + rec.len(), depth);
        let mj = if j == 0 {
            mp
        } else {
            mp.insert(n, SlotModel::Value(ValueModel::Mapping(es.take(j as int))))
        };
        lemma_field_map(pool, msg, mj, f, b, p + tag.len(), depth, body, delimited(body).len(), kk, vk);
        lemma_key_encoding(pool, kk, e.0);
        let next = mp.insert(n, SlotModel::Value(ValueModel::Mapping(es.take(j as int + 1))));
        assert(insert_entry_map(pool, msg, f, mj, e.0, e.1) =~= next) by {
            assert(es.take(j as int).push(e) =~= es.take(j as int + 1));
            assert forall|i: int| 0 <= i < es.take(j as int).len() implies #[trigger] es.take(j as int)[i].0 != e.0 by {
                assert(es.take(j as int)[i] == es[i]);
            }
            lemma_key_index(es.take(j as int), e.0, j as int);
            if j == 0 {
                lemma_set_map_insert(pool, msg, f, mp, ValueModel::Mapping(seq![]));
                assert(es.take(0) =~= Seq::<(KeyModel, ValueModel)>::empty());
            }
        }
        lemma_known_step(pool, msg, mj, b, p, end, depth, n, WireType::LengthDelimited, tag.len(), f, next, p + rec.len());
        assert(b.subrange((p + rec.len()) as int, (p + rec.len() + enc_entries(n, kk, vk, rest).len()) as int) == enc_entries(n, kk, vk, rest)) by {
            assert(b.subrange((p + rec.len()) as int, (p + rec.len() + enc_entries(n, kk, vk, rest).len()) as int) =~= enc_entries(n, kk, vk, t).subrange(rec.len() as int, enc_entries(n, kk, vk, t).len() as int));
        }
        lemma_entries_from(pool, msg, mp, f, es, j + 1, b, p + rec.len(), end, depth);
    }
}

/// The record of a packed list.
proof fn lemma_packed_record(
    pool: PoolInner,
    msg: u32,
    mp: Map<u32, SlotModel>,
    f: FieldEntry,
    items: Seq<ValueModel>,
    b: Seq<u8>,
    p: nat,
    end: nat,
    depth: nat,
)
    requires
        1 <= f.number <= MAX_FIELD_NUMBER,
        entry_by_number(fields_of(pool, msg), f.number) == Some(f),
        !field_is_map(pool, f),
        f.cardinality == Cardinality::Repeated,
        f.is_packed && spec_is_packable(f.kind),
        list_ready(pool, f, ValueModel::List(items), depth),
        !mp.contains_key(f.number),
        forall|x: u32| #[trigger] mp.contains_key(x) ==> !is_sibling(pool, msg, f, x),
        p + enc_field(pool, f, ValueModel::List(items)).len() <= end <= b.len(),
        b.subrange(p as int, (p + enc_field(pool, f, ValueModel::List(items)).len()) as int) == enc_field(pool, f, ValueModel::List(items)),
    ensures
        dec_msg(pool, msg, mp, b, p, end, depth) == dec_msg(
            pool,
            msg,
            mp.insert(f.number, SlotModel::Value(ValueModel::List(items))),
            b,
            p + enc_field(pool, f, ValueModel::List(items)).len(),
            end,
            depth,
        ),
    decreases depth, 2nat, 0nat,
{
    let n = f.number;
    let kd = f.kind;
    let bytes = enc_field(pool, f, ValueModel::List(items));
    let body = payloads(kd, items);
    let tag = enc_tag(n, WireType::LengthDelimited);
    let rest_bytes = delimited(body);
    assert(bytes == tag + rest_bytes);
    assert(b.subrange(p as int, (p + tag.len()) as int) == tag) by {
        assert(b.subrange(p as int, (p + tag.len()) as int) =~= bytes.subrange(0, tag.len() as int));
    }
    assert(b.subrange((p + tag.len()) as int, (p + bytes.len()) as int) == rest_bytes) by {
        assert(b.subrange((p + tag.len()) as int, (p + bytes.len()) as int) =~= bytes.subrange(tag.len() as int, bytes.len() as int));
    }
    lemma_skip_split(b, p as int, tag);
    lemma_tag_roundtrip(n as nat, WireType::LengthDelimited, b.skip((p + tag.len()) as int));
    crate::wire::lemma_varint_len(spec_tag_value(n as nat, WireType::LengthDelimited));
    lemma_skip_split(b, (p + tag.len()) as int, rest_bytes);
    lemma_delimited(body, b.skip((p + bytes.len()) as int));
    let start = (p + bytes.len() - body.len()) as nat;
    assert(b.subrange(start as int, (p + bytes.len()) as int) == body) by {
        assert(b.subrange(start as int, (p + bytes.len()) as int) =~= rest_bytes.subrange((rest_bytes.len() - body.len()) as int, rest_bytes.len() as int));
    }
    lemma_field_packed(pool, msg, mp, f, b, p + tag.len(), depth, body, rest_bytes.len());
    lemma_set_map_insert(pool, msg, f, mp, ValueModel::List(seq![]));
    assert(items.take(0) =~= Seq::<ValueModel>::empty());
    assert(items.subrange(0, items.len() as int) =~= items);
    lemma_packed_from(pool, f, mp, items, 0, b, start, p + bytes.len(), depth);
    lemma_known_step(pool, msg, mp, b, p, end, depth, n, WireType::LengthDelimited, tag.len(), f, mp.insert(n, SlotModel::Value(ValueModel::List(items))), p + bytes.len());
}

/// The record of a singular field.
proof fn lemma_singular_record(
    pool: PoolInner,
    msg: u32,
    mp: Map<u32, SlotModel>,
    f: FieldEntry,
    v: ValueModel,
    b: Seq<u8>,
    p: nat,
    end: nat,
    depth: nat,
)
    requires
        1 <= f.number <= MAX_FIELD_NUMBER,
        entry_by_number(fields_of(pool, msg), f.number) == Some(f),
        !field_is_map(pool, f),
        f.cardinality != Cardinality::Repeated,
        value_ready(pool, f.kind, v, depth),
        forall|x: u32| #[trigger] mp.contains_key(x) ==> !is_sibling(pool, msg, f, x),
        p + enc_field(pool, f, v).len() <= end <= b.len(),
        b.subrange(p as int, (p + enc_field(pool, f, v).len()) as int) == enc_field(pool, f, v),
    ensures
        dec_msg(pool, msg, mp, b, p, end, depth) == dec_msg(
            pool,
            msg,
            mp.insert(f.number, SlotModel::Value(v)),
            b,
            p + enc_field(pool, f, v).len(),
            end,
            depth,
        ),
    decreases depth, 2nat, 0nat,
{
    let n = f.number;
    let kd = f.kind;
    let bytes = enc_field(pool, f, v);
    let tag = enc_tag(n, wire_for(kd));
    let pl = payload(kd, v);
    assert(bytes == tag + pl);
    assert(b.subrange(p as int, (p + tag.len()) as int) == tag) by {
        assert(b.subrange(p as int, (p + tag.len()) as int) =~= bytes.subrange(0, tag.len() as int));
    }
    assert(b.subrange((p + tag.len()) as int, (p + bytes.len()) as int) == pl) by {
        assert(b.subrange((p + tag.len()) as int, (p + bytes.len()) as int) =~= bytes.subrange(tag.len() as int, bytes.len() as int));
    }
    lemma_skip_split(b, p as int, tag);
    lemma_tag_roundtrip(n as nat, wire_for(kd), b.skip((p + tag.len()) as int));
    crate::wire::lemma_varint_len(spec_tag_value(n as nat, wire_for(kd)));
    lemma_value(pool, kd, v, b, p + tag.len(), depth);
    lemma_field_singular(pool, msg, mp, f, wire_for(kd), b, p + tag.len(), depth, v, p + bytes.len());
    lemma_set_map_insert(pool, msg, f, mp, v);
    lemma_known_step(pool, msg, mp, b, p, end, depth, n, wire_for(kd), tag.len(), f, mp.insert(n, SlotModel::Value(v)), p + bytes.len());
}

/// One slot: reading its bytes adds the slot to the map.
#[verifier::spinoff_prover]
#[verifier::rlimit(60)]
proof fn lemma_slot_step(m: MessageModel, depth: nat, k: nat, b: Seq<u8>, p: nat, end: nat)
    requires
        msg_ready(m, depth),
        k < m.slots.len(),
        p + slot_bytes(m.pool, m.index, m.slots[k as int]).len() <= end <= b.len(),
        b.subrange(p as int, (p + slot_bytes(m.pool, m.index, m.slots[k as int]).len()) as int)
            == slot_bytes(m.pool, m.index, m.slots[k as int]),
    ensures
        dec_msg(m.pool, m.index, slot_view(m.slots.take(k as int)), b, p, end, depth) == dec_msg(
            m.pool,
            m.index,
            slot_view(m.slots.take(k as int + 1)),
            b,
            p + slot_bytes(m.pool, m.index, m.slots[k as int]).len(),
            end,
            depth,
        ),
    decreases depth, 3nat, 0nat,
{
    let pool = m.pool;
    let msg = m.index;
    let e = m.slots[k as int];
    let n = e.0;
    let pre = m.slots.take(k as int);
    let mp = slot_view(pre);
    assert(slot_ready(pool, msg, e, depth));
    assert forall|i: int| 0 <= i < pre.len() implies #[trigger] pre[i].0 != n by {
        assert(pre[i] == m.slots[i]);
        assert(m.slots[i].0 < m.slots[k as int].0);
    }
    assert(m.slots.take(k as int + 1) =~= pre.push(e));
    lemma_view_push(pre, e);
    lemma_slot_get_none(pre, n);
    assert(!mp.contains_key(n));
    let bytes = slot_bytes(pool, msg, e);
    match e.1 {
        SlotModel::Value(v) => {
            let f = entry_by_number(fields_of(pool, msg), n)->0;
            lemma_entry_by_number(fields_of(pool, msg), n);
            assert(f.number == n);
            let kd = f.kind;
            assert forall|x: u32| #[trigger] mp.contains_key(x) implies !is_sibling(pool, msg, f, x) by {
                lemma_view_key(pre, x);
                let i = choose|i: int| 0 <= i < pre.len() && #[trigger] pre[i].0 == x;
                assert(pre[i] == m.slots[i]);
                assert(m.slots[k as int].1 is Value);
            }
            if field_is_map(pool, f) {
                let es = v->Mapping_0;
                assert(es.subrange(0, es.len() as int) =~= es);
                lemma_entries_from(pool, msg, mp, f, es, 0, b, p, end, depth);
            } else if f.cardinality == Cardinality::Repeated {
                let items = v->List_0;
                if f.is_packed && spec_is_packable(kd) {
                    lemma_packed_record(pool, msg, mp, f, items, b, p, end, depth);
                } else {
                    assert(items.subrange(0, items.len() as int) =~= items);
                    lemma_items_from(pool, msg, mp, f, items, 0, b, p, end, depth);
                }
            } else {
                lemma_singular_record(pool, msg, mp, f, v, b, p, end, depth);
            }
        },
        SlotModel::Unknown(us) => {
            assert(us.subrange(0, us.len() as int) =~= us);
            lemma_unknowns_from(pool, msg, mp, n, us, 0, b, p, end, depth);
        },
    }
}

/// The slots from the `k`-th on.
#[verifier::spinoff_prover]
#[verifier::rlimit(60)]
proof fn lemma_dec_tail(m: MessageModel, depth: nat, k: nat, b: Seq<u8>, p: nat, end: nat)
    requires
        msg_ready(m, depth),
        k <= m.slots.len(),
        p <= end <= b.len(),
        b.subrange(p as int, end as int) == enc_slots(m.pool, m.index, m.slots.subrange(k as int, m.slots.len() as int)),
    ensures
        dec_msg(m.pool, m.index, slot_view(m.slots.take(k as int)), b, p, end, depth) == Ok::<
            Map<u32, SlotModel>,
            DecodeError,
        >(slot_view(m.slots)),
    decreases depth, 4nat, m.slots.len() - k,
{
    let t = m.slots.subrange(k as int, m.slots.len() as int);
    if k == m.slots.len() {
        assert(t =~= Seq::<(u32, SlotModel)>::empty());
        assert(m.slots.take(k as int) =~= m.slots);
        assert(b.subrange(p as int, end as int).len() == 0);
        reveal(dec_msg);
    } else {
        let e = m.slots[k as int];
        let rest = m.slots.subrange(k as int + 1, m.slots.len() as int);
        assert(t[0] == e);
        assert(t.subrange(1, t.len() as int) =~= rest);
        let bytes = slot_bytes(m.pool, m.index, e);
        assert(enc_slots(m.pool, m.index, t) == bytes + enc_slots(m.pool, m.index, rest));
        assert(b.subrange(p as int, (p + bytes.len()) as int) == bytes) by {
            assert(b.subrange(p as int, (p + bytes.len()) as int) =~= b.subrange(p as int, end as int).subrange(0, bytes.len() as int));
        }
        assert(b.subrange((p + bytes.len()) as int, end as int) == enc_slots(m.pool, m.index, rest)) by {
            assert(b.subrange((p + bytes.len()) as int, end as int) =~= b.subrange(p as int, end as int).subrange(bytes.len() as int, (end - p) as int));
        }
        lemma_slot_step(m, depth, k, b, p, end);
        lemma_dec_tail(m, depth, k + 1, b, p + bytes.len(), end);
    }
}

/// Decoding the encoding of a message gives the message back: for every
/// message whose slots are sorted by number, where no two stored values
/// share a oneof, every stored value fits the kind of its declared field
/// (singular, list or map; lists and maps non-empty, map keys distinct,
/// length-prefixed parts within `usize`), nested messages and groups stay
/// within the recursion depth, and every unknown field carries an
/// undeclared, valid number.
pub proof fn law_decode_encode(m: MessageModel, depth: nat)
    requires
        msg_ready(m, depth),
    ensures
        spec_decode(m.pool, m.index, enc_msg(m), depth) == Ok::<MessageModel, DecodeError>(m),
{
    let b = enc_msg(m);
    assert(b.subrange(0, b.len() as int) =~= b);
    assert(m.slots.subrange(0, m.slots.len() as int) =~= m.slots);
    lemma_dec_tail(m, depth, 0, b, 0, b.len());
    assert(slot_view(m.slots.take(0)) =~= Map::<u32, SlotModel>::empty());
    lemma_sorted_slots(m.slots);
}

} // verus!
