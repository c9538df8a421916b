//! Printer for the protobuf text format.
//!
//! A message prints as its entries: each set field in field-number order
//! (or declaration order), one entry per list item and per map entry, then
//! the unknown fields. Compact output separates entries with one space;
//! pretty output puts each on its own line, indented two spaces a level.
//! Map entries print in ascending key order. Floating-point values print
//! as the caller's [`FloatTexts`] table renders their bits.

use vstd::prelude::*;
use vstd::utf8::encode_utf8;

use crate::handles::FieldDescriptor;
use crate::message::{
    entry_by_number, field_is_list, field_is_map, fields_of, is_zero, is_zero_value,
    map_entry_kinds, map_kinds, DynamicMessage, MessageModel, Slot, SlotModel,
};
use crate::options::FormatOptions;
use crate::pool::{kind_ok, Cardinality, DescriptorPool, EnumValueEntry, FieldEntry, KindRef, PoolInner};
use crate::text::{chars_of, push_decimal, push_decimal_i64, spec_decimal, spec_decimal_int};
use crate::value::{
    entry_models, lemma_entry_models_len, KeyModel, MapKey, UnknownField, UnknownFieldData,
    UnknownModel, Value, ValueModel,
};

verus! {

/// How floating-point values print: each entry is a width (`true` for
/// `f32`), a bit pattern (an `f32`'s widened to 64 bits) and its text.
pub struct FloatTexts {
    pub entries: Vec<(bool, u64, String)>,
}

/// The text the first entry for (`single`, `bits`) gives; empty if none.
pub open spec fn float_text(entries: Seq<(bool, u64, String)>, single: bool, bits: u64) -> Seq<
    char,
>
    decreases entries.len(),
{
    if entries.len() == 0 {
        seq![]
    } else if entries[0].0 == single && entries[0].1 == bits {
        entries[0].2@
    } else {
        float_text(entries.drop_first(), single, bits)
    }
}

/// The settings the printer reads.
pub struct Style {
    pub pretty: bool,
    pub skip_unknown: bool,
    pub skip_default: bool,
    pub index_order: bool,
    pub expand_any: bool,
    pub any_fuel: nat,
}

pub open spec fn style_of(o: FormatOptions) -> Style {
    Style {
        pretty: o.pretty_flag(),
        skip_unknown: o.skip_unknown_fields_flag(),
        skip_default: o.skip_default_fields_flag(),
        index_order: o.print_message_fields_in_index_order_flag(),
        expand_any: o.expand_any_flag(),
        any_fuel: o.any_depth_flag(),
    }
}

/// One indentation step.
pub open spec fn step() -> Seq<char> {
    seq![' ', ' ']
}

pub open spec fn nl_if(b: bool) -> Seq<char> {
    if b {
        seq!['\n']
    } else {
        seq![]
    }
}

pub open spec fn quoted(s: Seq<char>) -> Seq<char> {
    seq!['"'] + s + seq!['"']
}

// ── escaping ────────────────────────────────────────────────────────────

pub open spec fn octal_digit(d: int) -> char {
    (('0' as int) + d) as char
}

/// How one byte of a string or bytes value prints.
pub open spec fn escape_byte(b: u8) -> Seq<char> {
    if b == 0x0a {
        seq!['\\', 'n']
    } else if b == 0x0d {
        seq!['\\', 'r']
    } else if b == 0x09 {
        seq!['\\', 't']
    } else if b == 0x5c {
        seq!['\\', '\\']
    } else if b == 0x22 {
        seq!['\\', '"']
    } else if b == 0x27 {
        seq!['\\', '\'']
    } else if 0x20 <= b <= 0x7e {
        seq![b as char]
    } else {
        seq!['\\', octal_digit(b as int / 64), octal_digit((b as int / 8) % 8), octal_digit(b as int % 8)]
    }
}

pub open spec fn escape(bs: Seq<u8>) -> Seq<char>
    decreases bs.len(),
{
    if bs.len() == 0 {
        seq![]
    } else {
        escape(bs.drop_last()) + escape_byte(bs.last())
    }
}

// ── map keys ────────────────────────────────────────────────────────────

pub open spec fn key_rank(k: KeyModel) -> int {
    match k {
        KeyModel::Bool(_) => 0,
        KeyModel::I32(_) => 1,
        KeyModel::I64(_) => 2,
        KeyModel::U32(_) => 3,
        KeyModel::U64(_) => 4,
        KeyModel::Str(_) => 5,
    }
}

/// Lexicographic order of character sequences.
pub open spec fn chars_lt(x: Seq<char>, y: Seq<char>) -> bool
    decreases x.len(),
{
    if x.len() == 0 {
        y.len() > 0
    } else if y.len() == 0 {
        false
    } else if x[0] != y[0] {
        (x[0] as u32) < (y[0] as u32)
    } else {
        chars_lt(x.drop_first(), y.drop_first())
    }
}

/// The order of map keys: by variant, then by value.
pub open spec fn key_lt(a: KeyModel, b: KeyModel) -> bool {
    if key_rank(a) != key_rank(b) {
        key_rank(a) < key_rank(b)
    } else {
        match (a, b) {
            (KeyModel::Bool(x), KeyModel::Bool(y)) => !x && y,
            (KeyModel::I32(x), KeyModel::I32(y)) => x < y,
            (KeyModel::I64(x), KeyModel::I64(y)) => x < y,
            (KeyModel::U32(x), KeyModel::U32(y)) => x < y,
            (KeyModel::U64(x), KeyModel::U64(y)) => x < y,
            (KeyModel::Str(x), KeyModel::Str(y)) => chars_lt(x, y),
            _ => false,
        }
    }
}

/// Insert index `i` into `order` (ascending by key) after every index
/// whose key is not greater.
pub open spec fn insert_by_key(order: Seq<int>, keys: Seq<KeyModel>, i: int) -> Seq<int>
    decreases order.len(),
{
    if order.len() == 0 {
        seq![i]
    } else if key_lt(keys[i], keys[order.last()]) {
        insert_by_key(order.drop_last(), keys, i).push(order.last())
    } else {
        order.push(i)
    }
}

/// The indices `0..n` of `keys`, stably sorted by key.
pub open spec fn key_order(keys: Seq<KeyModel>, n: nat) -> Seq<int>
    decreases n,
{
    if n == 0 {
        seq![]
    } else {
        insert_by_key(key_order(keys, (n - 1) as nat), keys, n - 1)
    }
}

pub open spec fn bool_text(b: bool) -> Seq<char> {
    if b {
        seq!['t', 'r', 'u', 'e']
    } else {
        seq!['f', 'a', 'l', 's', 'e']
    }
}

/// How a map key prints (strings quoted, not escaped).
pub open spec fn key_text(k: KeyModel) -> Seq<char> {
    match k {
        KeyModel::Bool(b) => bool_text(b),
        KeyModel::I32(v) => spec_decimal_int(v as int),
        KeyModel::I64(v) => spec_decimal_int(v as int),
        KeyModel::U32(v) => spec_decimal(v as nat),
        KeyModel::U64(v) => spec_decimal(v as nat),
        KeyModel::Str(s) => quoted(s),
    }
}

// ── unknown fields ──────────────────────────────────────────────────────

/// How the payload of an unknown field prints.
pub open spec fn unknown_text(u: UnknownModel) -> Seq<char> {
    match u {
        UnknownModel::Varint(_, v) => spec_decimal(v as nat),
        UnknownModel::Fixed64(_, v) => spec_decimal(v as nat),
        UnknownModel::Fixed32(_, v) => spec_decimal(v as nat),
        UnknownModel::LengthDelimited(_, b) => quoted(escape(b)),
        UnknownModel::Group(_, _) => seq!['{', ' ', '.', '.', '.', ' ', '}'],
    }
}

/// Entries for the unknown fields `us` kept under number `n`.
pub open spec fn unknown_entries(n: u32, us: Seq<UnknownModel>) -> Seq<(Seq<char>, bool)>
    decreases us.len(),
{
    if us.len() == 0 {
        seq![]
    } else {
        unknown_entries(n, us.drop_last()).push(
            (spec_decimal(n as nat) + seq![':', ' '] + unknown_text(us.last()), true),
        )
    }
}

/// Entries for the unknown fields among the first `k` slots.
pub open spec fn unknown_items(slots: Seq<(u32, SlotModel)>, k: nat) -> Seq<(Seq<char>, bool)>
    decreases k,
{
    if k == 0 || k > slots.len() {
        seq![]
    } else {
        unknown_items(slots, (k - 1) as nat) + match slots[k - 1].1 {
            SlotModel::Unknown(us) => unknown_entries(slots[k - 1].0, us),
            _ => seq![],
        }
    }
}

// ── layout ──────────────────────────────────────────────────────────────

/// Lay entries out: pretty, each on a line of its own after `ind` (an
/// entry left open gets no line break); compact, separated by spaces.
pub open spec fn lay_out(items: Seq<(Seq<char>, bool)>, pretty: bool, ind: Seq<char>) -> Seq<char>
    decreases items.len(),
{
    if items.len() == 0 {
        seq![]
    } else {
        let before = lay_out(items.drop_last(), pretty, ind);
        let last = items.last();
        if pretty {
            before + ind + last.0 + nl_if(last.1)
        } else if items.len() > 1 {
            before + seq![' '] + last.0
        } else {
            last.0
        }
    }
}

// ── values and messages ─────────────────────────────────────────────────

/// The name of the first value of enum values `vs` numbered `n`.
pub open spec fn enum_name_of(vs: Seq<EnumValueEntry>, n: i32) -> Option<Seq<char>>
    decreases vs.len(),
{
    if vs.len() == 0 {
        None
    } else if vs[0].number == n {
        Some(vs[0].name@)
    } else {
        enum_name_of(vs.drop_first(), n)
    }
}

/// Whether a set field prints: it counts as present, and is not left out
/// as a default.
pub open spec fn shown(st: Style, f: FieldEntry, v: ValueModel) -> bool {
    (f.supports_presence || !is_zero(f.kind, v)) && !(st.skip_default && is_zero(f.kind, v))
}

pub open spec fn fields_weight(m: MessageModel) -> int {
    (m.slots.len() + fields_of(m.pool, m.index).len()) as int
}

/// The text of a message.
pub open spec fn fmt_msg(st: Style, fl: Seq<(bool, u64, String)>, m: MessageModel, ind: Seq<char>) -> Seq<
    char,
>
    decreases st.any_fuel, m, fields_weight(m) + 3,
{
    lay_out(msg_items(st, fl, m, ind), st.pretty, ind)
}

/// The type URL of an `Any` message `m` and its payload decoded as the
/// message type the URL names, when the pool has that type and the bytes
/// decode.
pub open spec fn any_payload_of(m: MessageModel) -> Option<(Seq<char>, MessageModel)> {
    let url: Seq<char> = match crate::json::named_value(m, "type_url"@) {
        Some(ValueModel::Str(s)) => s,
        _ => seq![],
    };
    let bytes: Seq<u8> = match crate::json::named_value(m, "value"@) {
        Some(ValueModel::Bytes(b)) => b,
        _ => seq![],
    };
    match crate::pool::table_get(m.pool.names@, crate::text::spec_strip_dot(crate::json::url_tail(url))) {
        Some(crate::pool::Definition::Message(i)) => match crate::decode::spec_decode(
            m.pool,
            i,
            bytes,
            crate::decode::RECURSION_LIMIT as nat,
        ) {
            Ok(p) => Some((url, p)),
            Err(_) => None,
        },
        _ => None,
    }
}

/// The URL and payload of `m` when it prints as an expanded `Any`: the
/// setting is on, the nesting budget is not spent, `m` is a
/// `google.protobuf.Any` and its payload decodes.
pub open spec fn any_expansion(st: Style, m: MessageModel) -> Option<(Seq<char>, MessageModel)> {
    if st.expand_any && st.any_fuel > 0 && crate::json::full_name_of(m) == "google.protobuf.Any"@ {
        any_payload_of(m)
    } else {
        None
    }
}

/// The entries of a message: an expanded `Any` is the one entry
/// `[url] { payload }`; otherwise its set fields, then its unknown fields.
pub open spec fn msg_items(st: Style, fl: Seq<(bool, u64, String)>, m: MessageModel, ind: Seq<char>) -> Seq<
    (Seq<char>, bool),
>
    decreases st.any_fuel, m, fields_weight(m) + 2,
{
    match any_expansion(st, m) {
        Some((url, p)) => seq![
            (
                seq!['['] + url + seq![']', ' ', '{'] + nl_if(st.pretty) + fmt_msg(
                    Style { any_fuel: (st.any_fuel - 1) as nat, ..st },
                    fl,
                    p,
                    ind + step(),
                ) + (if st.pretty {
                    ind
                } else {
                    seq![]
                }) + seq!['}'],
                true,
            ),
        ],
        None => known_items(st, fl, m, ind),
    }
}

/// The entries of a message printed field by field: its set fields, then
/// its unknown fields.
pub open spec fn known_items(st: Style, fl: Seq<(bool, u64, String)>, m: MessageModel, ind: Seq<char>) -> Seq<
    (Seq<char>, bool),
>
    decreases st.any_fuel, m, fields_weight(m) + 1,
{
    let known = if st.index_order {
        decl_items(st, fl, m, ind, fields_of(m.pool, m.index).len())
    } else {
        slot_items(st, fl, m, ind, m.slots.len())
    };
    if st.skip_unknown {
        known
    } else {
        known + unknown_items(m.slots, m.slots.len())
    }
}

/// Index of the first slot numbered `n`, or -1.
pub open spec fn slot_index(slots: Seq<(u32, SlotModel)>, n: u32) -> int
    decreases slots.len(),
{
    if slots.len() == 0 {
        -1
    } else if slots.last().0 == n && slot_index(slots.drop_last(), n) < 0 {
        slots.len() - 1
    } else {
        slot_index(slots.drop_last(), n)
    }
}

/// Entries of the fields set among the first `k` slots, in slot order.
pub open spec fn slot_items(
    st: Style,
    fl: Seq<(bool, u64, String)>,
    m: MessageModel,
    ind: Seq<char>,
    k: nat,
) -> Seq<(Seq<char>, bool)>
    decreases st.any_fuel, m, k,
{
    if k == 0 || k > m.slots.len() {
        seq![]
    } else {
        let before = slot_items(st, fl, m, ind, (k - 1) as nat);
        let n = m.slots[k - 1].0;
        match m.slots[k - 1].1 {
            SlotModel::Value(v) => match entry_by_number(fields_of(m.pool, m.index), n) {
                Some(f) => if shown(st, f, v) {
                    before + field_items(st, fl, m.pool, f, v, ind)
                } else {
                    before
                },
                None => before,
            },
            SlotModel::Unknown(_) => before,
        }
    }
}

/// Entries of the set fields among the first `k` declared fields, in
/// declaration order.
pub open spec fn decl_items(
    st: Style,
    fl: Seq<(bool, u64, String)>,
    m: MessageModel,
    ind: Seq<char>,
    k: nat,
) -> Seq<(Seq<char>, bool)>
    decreases st.any_fuel, m, k,
{
    let fs = fields_of(m.pool, m.index);
    if k == 0 || k > fs.len() {
        seq![]
    } else {
        let before = decl_items(st, fl, m, ind, (k - 1) as nat);
        let f = fs[k - 1];
        let i = slot_index(m.slots, f.number);
        if 0 <= i < m.slots.len() {
            match m.slots[i].1 {
                SlotModel::Value(v) => if shown(st, f, v) {
                    before + field_items(st, fl, m.pool, f, v, ind)
                } else {
                    before
                },
                SlotModel::Unknown(_) => before,
            }
        } else {
            before
        }
    }
}

pub open spec fn value_weight(v: ValueModel) -> int {
    match v {
        ValueModel::List(items) => items.len() as int + 2,
        ValueModel::Mapping(es) => es.len() as int + 2,
        _ => 2,
    }
}

/// The entries one set field prints as: one per list item, one per map
/// entry in key order, else one.
pub open spec fn field_items(
    st: Style,
    fl: Seq<(bool, u64, String)>,
    pool: PoolInner,
    f: FieldEntry,
    v: ValueModel,
    ind: Seq<char>,
) -> Seq<(Seq<char>, bool)>
    decreases st.any_fuel, v, value_weight(v) + 1,
{
    if field_is_list(pool, f) {
        match v {
            ValueModel::List(items) => list_items(st, fl, pool, f, v, ind, items.len()),
            _ => seq![],
        }
    } else if field_is_map(pool, f) {
        match v {
            ValueModel::Mapping(es) => map_items(st, fl, pool, f, v, ind, es.len()),
            _ => seq![],
        }
    } else {
        seq![(f.name@ + field_value_text(st, fl, pool, f.kind, v, ind), true)]
    }
}

/// Entries of the first `k` items of list value `v`.
pub open spec fn list_items(
    st: Style,
    fl: Seq<(bool, u64, String)>,
    pool: PoolInner,
    f: FieldEntry,
    v: ValueModel,
    ind: Seq<char>,
    k: nat,
) -> Seq<(Seq<char>, bool)>
    decreases st.any_fuel, v, k,
{
    match v {
        ValueModel::List(items) => if k == 0 || k > items.len() {
            seq![]
        } else {
            list_items(st, fl, pool, f, v, ind, (k - 1) as nat).push(
                (f.name@ + field_value_text(st, fl, pool, f.kind, items[k - 1], ind), true),
            )
        },
        _ => seq![],
    }
}

/// The keys of map entries.
pub open spec fn keys_of(es: Seq<(KeyModel, ValueModel)>) -> Seq<KeyModel> {
    Seq::new(es.len(), |i: int| es[i].0)
}

/// Entries of the first `k` entries, in key order, of map value `v`.
pub open spec fn map_items(
    st: Style,
    fl: Seq<(bool, u64, String)>,
    pool: PoolInner,
    f: FieldEntry,
    v: ValueModel,
    ind: Seq<char>,
    k: nat,
) -> Seq<(Seq<char>, bool)>
    decreases st.any_fuel, v, k,
{
    match v {
        ValueModel::Mapping(es) => {
            let order = key_order(keys_of(es), es.len());
            if k == 0 || k > order.len() {
                seq![]
            } else {
                let i = order[k - 1];
                let before = map_items(st, fl, pool, f, v, ind, (k - 1) as nat);
                if 0 <= i < es.len() {
                    before.push(map_entry_item(st, fl, pool, f, es[i].0, es[i].1, ind))
                } else {
                    before
                }
            }
        },
        _ => seq![],
    }
}

/// The entry of one map entry; left open when the map type has no key
/// or value field.
pub open spec fn map_entry_item(
    st: Style,
    fl: Seq<(bool, u64, String)>,
    pool: PoolInner,
    f: FieldEntry,
    key: KeyModel,
    val: ValueModel,
    ind: Seq<char>,
) -> (Seq<char>, bool)
    decreases st.any_fuel, val, 3int,
{
    let inner = ind + step();
    let head = f.name@ + seq![' ', '{'] + (if st.pretty {
        seq!['\n'] + inner
    } else {
        seq![]
    }) + seq!['k', 'e', 'y', ':', ' '] + key_text(key) + (if st.pretty {
        seq!['\n'] + inner
    } else {
        seq![' ']
    });
    match map_kinds(pool, f) {
        Some((_, vk)) => (
            head + seq!['v', 'a', 'l', 'u', 'e', ':', ' '] + value_text(st, fl, pool, vk, val, inner)
                + (if st.pretty {
                seq!['\n'] + ind
            } else {
                seq![]
            }) + seq!['}'],
            true,
        ),
        None => (head, false),
    }
}

/// What follows a field's name: ` {…}` for a message, else `: ` and the
/// value.
pub open spec fn field_value_text(
    st: Style,
    fl: Seq<(bool, u64, String)>,
    pool: PoolInner,
    k: KindRef,
    v: ValueModel,
    ind: Seq<char>,
) -> Seq<char>
    decreases st.any_fuel, v, 1int,
{
    match (k, v) {
        (KindRef::Message(_), ValueModel::Message(m)) => seq![' ', '{'] + nl_if(st.pretty) + fmt_msg(
            st,
            fl,
            m,
            ind + step(),
        ) + (if st.pretty {
            ind
        } else {
            seq![]
        }) + seq!['}'],
        _ => seq![':', ' '] + value_text(st, fl, pool, k, v, ind),
    }
}

/// How a value of kind `k` prints.
pub open spec fn value_text(
    st: Style,
    fl: Seq<(bool, u64, String)>,
    pool: PoolInner,
    k: KindRef,
    v: ValueModel,
    ind: Seq<char>,
) -> Seq<char>
    decreases st.any_fuel, v, 0int,
{
    match (k, v) {
        (KindRef::Bool, ValueModel::Bool(b)) => bool_text(b),
        (KindRef::Int32, ValueModel::I32(x)) => spec_decimal_int(x as int),
        (KindRef::Sint32, ValueModel::I32(x)) => spec_decimal_int(x as int),
        (KindRef::Sfixed32, ValueModel::I32(x)) => spec_decimal_int(x as int),
        (KindRef::Uint32, ValueModel::U32(x)) => spec_decimal(x as nat),
        (KindRef::Fixed32, ValueModel::U32(x)) => spec_decimal(x as nat),
        (KindRef::Int64, ValueModel::I64(x)) => spec_decimal_int(x as int),
        (KindRef::Sint64, ValueModel::I64(x)) => spec_decimal_int(x as int),
        (KindRef::Sfixed64, ValueModel::I64(x)) => spec_decimal_int(x as int),
        (KindRef::Uint64, ValueModel::U64(x)) => spec_decimal(x as nat),
        (KindRef::Fixed64, ValueModel::U64(x)) => spec_decimal(x as nat),
        (KindRef::Float, ValueModel::F32(b)) => float_text(fl, true, b as u64),
        (KindRef::Double, ValueModel::F64(b)) => float_text(fl, false, b),
        (KindRef::String, ValueModel::Str(s)) => quoted(escape(encode_utf8(s))),
        (KindRef::Bytes, ValueModel::Bytes(b)) => quoted(escape(b)),
        (KindRef::Enum(e), ValueModel::EnumNumber(n)) => match enum_name_of(
            pool.enums@[e as int].values@,
            n,
        ) {
            Some(name) => name,
            None => spec_decimal_int(n as int),
        },
        (KindRef::Message(_), ValueModel::Message(m)) => seq!['{'] + nl_if(st.pretty) + fmt_msg(
            st,
            fl,
            m,
            ind + step(),
        ) + (if st.pretty {
            ind
        } else {
            seq![]
        }) + seq!['}'],
        _ => seq!['/', '*', ' ', 'm', 'i', 's', 'm', 'a', 't', 'c', 'h', 'e', 'd', ' ', '*', '/'],
    }
}


// ── leaf printers ───────────────────────────────────────────────────────

impl FloatTexts {
    /// An empty table.
    pub fn new() -> (r: FloatTexts)
        ensures
            r.entries@.len() == 0,
    {
        FloatTexts { entries: Vec::new() }
    }

    /// Record the text for a value of width `single` with bits `bits`.
    pub fn insert(&mut self, single: bool, bits: u64, text: String)
        ensures
            final(self).entries@ == old(self).entries@.push((single, bits, text)),
    {
        self.entries.push((single, bits, text));
    }

    /// Append the text recorded for (`single`, `bits`).
    fn push_text(&self, out: &mut String, single: bool, bits: u64)
        ensures
            final(out)@ == old(out)@ + float_text(self.entries@, single, bits),
    {
        let mut i: usize = 0;
        assert(self.entries@.skip(0) =~= self.entries@);
        while i < self.entries.len()
            invariant
                i <= self.entries@.len(),
                *out == *old(out),
                float_text(self.entries@, single, bits) == float_text(
                    self.entries@.skip(i as int),
                    single,
                    bits,
                ),
            decreases self.entries@.len() - i,
        {
            assert(self.entries@.skip(i as int).drop_first() =~= self.entries@.skip(i + 1));
            let e = &self.entries[i];
            if e.0 == single && e.1 == bits {
                out.push_str(e.2.as_str());
                return;
            }
            i = i + 1;
        }
        assert(old(out)@ + Seq::<char>::empty() =~= old(out)@);
    }
}

fn octal(d: u8) -> (c: char)
    requires
        d < 8,
    ensures
        c == octal_digit(d as int),
{
    let c = if d == 0 {
        '0'
    } else if d == 1 {
        '1'
    } else if d == 2 {
        '2'
    } else if d == 3 {
        '3'
    } else if d == 4 {
        '4'
    } else if d == 5 {
        '5'
    } else if d == 6 {
        '6'
    } else {
        '7'
    };
    assert(c as int == ('0' as int) + d);
    c
}

/// Append the escaped form of `bytes`: what was in `out` stays, and what
/// is added is printable ASCII, at least one and at most four characters
/// per byte.
pub fn push_escaped(out: &mut String, bytes: &[u8])
    ensures
        final(out)@ == old(out)@ + escape(bytes@),
        final(out)@.take(old(out)@.len() as int) == old(out)@,
        forall|i: int|
            old(out)@.len() <= i < final(out)@.len() ==> ' ' <= #[trigger] final(out)@[i] <= '~',
        old(out)@.len() + bytes@.len() <= final(out)@.len() <= old(out)@.len() + 4 * bytes@.len(),
{
    let n = bytes.len();
    let mut i: usize = 0;
    while i < n
        invariant
            i <= n,
            n == bytes@.len(),
            out@ == old(out)@ + escape(bytes@.take(i as int)),
        decreases n - i,
    {
        let b = bytes[i];
        let ghost before = out@;
        if b == 0x0a {
            out.push_str("\\n");
        } else if b == 0x0d {
            out.push_str("\\r");
        } else if b == 0x09 {
            out.push_str("\\t");
        } else if b == 0x5c {
            out.push_str("\\\\");
        } else if b == 0x22 {
            out.push_str("\\\"");
        } else if b == 0x27 {
            out.push_str("\\'");
        } else if 0x20 <= b && b <= 0x7e {
            out.push(b as char);
        } else {
            out.push('\\');
            out.push(octal(b / 64));
            out.push(octal((b / 8) % 8));
            out.push(octal(b % 8));
        }
        proof {
            reveal_strlit("\\n");
            reveal_strlit("\\r");
            reveal_strlit("\\t");
            reveal_strlit("\\\\");
            reveal_strlit("\\\"");
            reveal_strlit("\\'");
            assert(bytes@.take(i + 1).drop_last() =~= bytes@.take(i as int));
            assert(out@ =~= before + escape_byte(b));
        }
        i = i + 1;
    }
    assert(bytes@.take(n as int) =~= bytes@);
    proof {
        crate::escaping::law_escape_printable(bytes@);
        let added = escape(bytes@);
        assert(out@.take(old(out)@.len() as int) =~= old(out)@);
        assert forall|i: int| old(out)@.len() <= i < out@.len() implies ' ' <= #[trigger] out@[i] <= '~' by {
            assert(out@[i] == added[i - old(out)@.len()]);
        }
    }
}

fn push_bool(out: &mut String, b: bool)
    ensures
        final(out)@ == old(out)@ + bool_text(b),
{
    proof {
        reveal_strlit("true");
        reveal_strlit("false");
    }
    if b {
        out.push_str("true");
    } else {
        out.push_str("false");
    }
}

/// Append the text of map key `k`.
fn push_key(out: &mut String, k: &MapKey)
    ensures
        final(out)@ == old(out)@ + key_text(k.model()),
{
    match k {
        MapKey::Bool(b) => push_bool(out, *b),
        MapKey::I32(v) => push_decimal_i64(out, *v as i64),
        MapKey::I64(v) => push_decimal_i64(out, *v),
        MapKey::U32(v) => push_decimal(out, *v as u64),
        MapKey::U64(v) => push_decimal(out, *v),
        MapKey::String(s) => {
            out.push('"');
            out.push_str(s.as_str());
            out.push('"');
            assert(final(out)@ =~= old(out)@ + quoted(s@));
        },
    }
}

fn rank(k: &MapKey) -> (r: u8)
    ensures
        r as int == key_rank(k.model()),
{
    match k {
        MapKey::Bool(_) => 0,
        MapKey::I32(_) => 1,
        MapKey::I64(_) => 2,
        MapKey::U32(_) => 3,
        MapKey::U64(_) => 4,
        MapKey::String(_) => 5,
    }
}

fn str_less(x: &String, y: &String) -> (r: bool)
    ensures
        r == chars_lt(x@, y@),
{
    let a = chars_of(x.as_str());
    let b = chars_of(y.as_str());
    let mut i: usize = 0;
    assert(a@.skip(0) =~= a@);
    assert(b@.skip(0) =~= b@);
    while i < a.len() && i < b.len() && a[i] == b[i]
        invariant
            i <= a@.len(),
            i <= b@.len(),
            chars_lt(a@, b@) == chars_lt(a@.skip(i as int), b@.skip(i as int)),
        decreases a@.len() - i,
    {
        assert(a@.skip(i as int).drop_first() =~= a@.skip(i + 1));
        assert(b@.skip(i as int).drop_first() =~= b@.skip(i + 1));
        i = i + 1;
    }
    assert(a@.skip(0) =~= a@);
    assert(b@.skip(0) =~= b@);
    if i == a.len() {
        i < b.len()
    } else if i == b.len() {
        false
    } else {
        (a[i] as u32) < (b[i] as u32)
    }
}

/// Whether key `a` orders before key `b`.
fn key_less(a: &MapKey, b: &MapKey) -> (r: bool)
    ensures
        r == key_lt(a.model(), b.model()),
{
    let ra = rank(a);
    let rb = rank(b);
    if ra != rb {
        return ra < rb;
    }
    match (a, b) {
        (MapKey::Bool(x), MapKey::Bool(y)) => !*x && *y,
        (MapKey::I32(x), MapKey::I32(y)) => *x < *y,
        (MapKey::I64(x), MapKey::I64(y)) => *x < *y,
        (MapKey::U32(x), MapKey::U32(y)) => *x < *y,
        (MapKey::U64(x), MapKey::U64(y)) => *x < *y,
        (MapKey::String(x), MapKey::String(y)) => str_less(x, y),
        _ => false,
    }
}

/// Insert index `i` into the key-sorted `order` (see [`insert_by_key`]).
fn insert_index(order: Vec<usize>, es: &Vec<(MapKey, Value)>, i: usize) -> (r: Vec<usize>)
    requires
        i < es@.len(),
        forall|j: int| 0 <= j < order@.len() ==> #[trigger] order@[j] < es@.len(),
    ensures
        r@.len() == order@.len() + 1,
        forall|j: int| 0 <= j < r@.len() ==> #[trigger] r@[j] < es@.len(),
        r@.map_values(|x: usize| x as int) == insert_by_key(
            order@.map_values(|x: usize| x as int),
            keys_of(entry_models(es@)),
            i as int,
        ),
    decreases order@.len(),
{
    proof {
        lemma_entry_models_len(es@);
    }
    let ghost keys = keys_of(entry_models(es@));
    let ghost om = order@.map_values(|x: usize| x as int);
    let mut order = order;
    if order.len() == 0 {
        let mut r = Vec::new();
        r.push(i);
        assert(r@.map_values(|x: usize| x as int) =~= seq![i as int]);
        return r;
    }
    let last = order[order.len() - 1];
    assert(om.last() == last as int);
    assert(keys[last as int] == es@[last as int].0.model());
    assert(keys[i as int] == es@[i as int].0.model());
    if key_less(&es[i].0, &es[last].0) {
        let ghost before = order@;
        order.pop();
        assert(order@ =~= before.drop_last());
        assert(order@.map_values(|x: usize| x as int) =~= om.drop_last());
        let mut r = insert_index(order, es, i);
        let ghost rm = r@.map_values(|x: usize| x as int);
        r.push(last);
        assert(r@.map_values(|x: usize| x as int) =~= rm.push(last as int));
        r
    } else {
        order.push(i);
        assert(order@.map_values(|x: usize| x as int) =~= om.push(i as int));
        order
    }
}

/// The indices of `es`, stably sorted by key (see [`key_order`]).
pub(crate) fn sorted_indices(es: &Vec<(MapKey, Value)>) -> (r: Vec<usize>)
    ensures
        r@.len() == es@.len(),
        forall|j: int| 0 <= j < r@.len() ==> #[trigger] r@[j] < es@.len(),
        r@.map_values(|x: usize| x as int) == key_order(keys_of(entry_models(es@)), es@.len()),
{
    let mut order: Vec<usize> = Vec::new();
    let mut i: usize = 0;
    assert(order@.map_values(|x: usize| x as int) =~= seq![]);
    while i < es.len()
        invariant
            i <= es@.len(),
            order@.len() == i,
            forall|j: int| 0 <= j < order@.len() ==> #[trigger] order@[j] < es@.len(),
            order@.map_values(|x: usize| x as int) == key_order(keys_of(entry_models(es@)), i as nat),
        decreases es@.len() - i,
    {
        order = insert_index(order, es, i);
        i = i + 1;
    }
    order
}

/// Append the payload text of unknown field `u`.
fn push_unknown(out: &mut String, u: &UnknownField)
    ensures
        final(out)@ == old(out)@ + unknown_text(u.model()),
{
    match &u.data {
        UnknownFieldData::Varint(v) => push_decimal(out, *v),
        UnknownFieldData::Fixed64(v) => push_decimal(out, *v),
        UnknownFieldData::Fixed32(v) => push_decimal(out, *v as u64),
        UnknownFieldData::LengthDelimited(b) => {
            out.push('"');
            push_escaped(out, b.as_slice());
            out.push('"');
            assert(final(out)@ =~= old(out)@ + quoted(escape(b@)));
        },
        UnknownFieldData::Group(_) => {
            proof {
                reveal_strlit("{ ... }");
            }
            out.push_str("{ ... }");
            assert(final(out)@ =~= old(out)@ + seq!['{', ' ', '.', '.', '.', ' ', '}']);
        },
    }
}

/// The texts and line ends of printed entries.
pub open spec fn items_view(v: Seq<(String, bool)>) -> Seq<(Seq<char>, bool)> {
    Seq::new(v.len(), |i: int| (v[i].0@, v[i].1))
}

/// Lay out `items` (see [`lay_out`]).
fn lay_out_items(items: &Vec<(String, bool)>, pretty: bool, ind: &String) -> (r: String)
    ensures
        r@ == lay_out(items_view(items@), pretty, ind@),
{
    let mut out = String::new();
    let mut i: usize = 0;
    while i < items.len()
        invariant
            i <= items@.len(),
            out@ == lay_out(items_view(items@).take(i as int), pretty, ind@),
        decreases items@.len() - i,
    {
        let ghost pre = items_view(items@).take(i as int);
        let ghost next = items_view(items@).take(i + 1);
        assert(next.drop_last() =~= pre);
        assert(next.last() == (items@[i as int].0@, items@[i as int].1));
        if pretty {
            out.push_str(ind.as_str());
            out.push_str(items[i].0.as_str());
            if items[i].1 {
                out.push('\n');
            }
        } else {
            if i > 0 {
                out.push(' ');
            }
            out.push_str(items[i].0.as_str());
        }
        proof {
            if i == 0 {
                assert(pre =~= Seq::<(Seq<char>, bool)>::empty());
            }
            assert(out@ =~= lay_out(next, pretty, ind@));
        }
        i = i + 1;
    }
    assert(items_view(items@).take(items@.len() as int) =~= items_view(items@));
    out
}

/// The name of the first value numbered `n` among `vs`.
pub(crate) fn enum_name_pub(vs: &Vec<EnumValueEntry>, n: i32) -> (r: Option<&String>)
    ensures
        match enum_name_of(vs@, n) {
            Some(name) => r is Some && r->0@ == name,
            None => r is None,
        },
{
    enum_name(vs, n)
}

fn enum_name(vs: &Vec<EnumValueEntry>, n: i32) -> (r: Option<&String>)
    ensures
        match enum_name_of(vs@, n) {
            Some(name) => r is Some && r->0@ == name,
            None => r is None,
        },
{
    let mut i: usize = 0;
    assert(vs@.skip(0) =~= vs@);
    while i < vs.len()
        invariant
            i <= vs@.len(),
            enum_name_of(vs@, n) == enum_name_of(vs@.skip(i as int), n),
        decreases vs@.len() - i,
    {
        assert(vs@.skip(i as int).drop_first() =~= vs@.skip(i + 1));
        if vs[i].number == n {
            return Some(&vs[i].name);
        }
        i = i + 1;
    }
    None
}


// ── messages ────────────────────────────────────────────────────────────

fn style_pretty(o: &FormatOptions) -> (r: bool)
    ensures
        r == style_of(*o).pretty,
{
    o.is_pretty()
}

/// `ind` followed by one indentation step.
fn deeper(ind: &String) -> (r: String)
    ensures
        r@ == ind@ + step(),
{
    let mut r = ind.clone();
    proof {
        reveal_strlit("  ");
    }
    r.push_str("  ");
    r
}

pub proof fn lemma_items_push(v: Seq<(String, bool)>, x: (String, bool))
    ensures
        items_view(v.push(x)) == items_view(v).push((x.0@, x.1)),
{
    assert(items_view(v.push(x)) =~= items_view(v).push((x.0@, x.1)));
}

/// Append the text of value `v` of kind `k` (see [`value_text`]).
fn push_value_text(
    out: &mut String,
    o: &FormatOptions,
    fl: &FloatTexts,
    pool: &DescriptorPool,
    k: KindRef,
    v: &Value,
    ind: &String,
)
    requires
        kind_ok(k, pool.view_inner().messages@.len(), pool.view_inner().enums@.len()),
    ensures
        final(out)@ == old(out)@ + value_text(style_of(*o), fl.entries@, pool.view_inner(), k, v.model(), ind@),
    decreases o.any_depth_flag(), v, 1int,
{
    proof {
        reveal_strlit("/* mismatched */");
    }
    match (k, v) {
        (KindRef::Bool, Value::Bool(b)) => push_bool(out, *b),
        (KindRef::Int32, Value::I32(x)) | (KindRef::Sint32, Value::I32(x)) | (KindRef::Sfixed32, Value::I32(x)) => push_decimal_i64(out, *x as i64),
        (KindRef::Uint32, Value::U32(x)) | (KindRef::Fixed32, Value::U32(x)) => push_decimal(out, *x as u64),
        (KindRef::Int64, Value::I64(x)) | (KindRef::Sint64, Value::I64(x)) | (KindRef::Sfixed64, Value::I64(x)) => push_decimal_i64(out, *x),
        (KindRef::Uint64, Value::U64(x)) | (KindRef::Fixed64, Value::U64(x)) => push_decimal(out, *x),
        (KindRef::Float, Value::F32(b)) => fl.push_text(out, true, *b as u64),
        (KindRef::Double, Value::F64(b)) => fl.push_text(out, false, *b),
        (KindRef::String, Value::String(st)) => {
            out.push('"');
            push_escaped(out, st.as_str().as_bytes());
            out.push('"');
            assert(final(out)@ =~= old(out)@ + quoted(escape(encode_utf8(st@))));
        },
        (KindRef::Bytes, Value::Bytes(b)) => {
            out.push('"');
            push_escaped(out, b.as_slice());
            out.push('"');
            assert(final(out)@ =~= old(out)@ + quoted(escape(b@)));
        },
        (KindRef::Enum(e), Value::EnumNumber(n)) => {
            let inner = pool.inner_ref();
            match enum_name(&inner.enums[e as usize].values, *n) {
                Some(name) => out.push_str(name.as_str()),
                None => push_decimal_i64(out, *n as i64),
            }
        },
        (KindRef::Message(_), Value::Message(sub)) => {
            out.push('{');
            if o.is_pretty() {
                out.push('\n');
            }
            let ind2 = deeper(ind);
            let text = fmt_message(sub, o, fl, &ind2);
            out.push_str(text.as_str());
            if o.is_pretty() {
                out.push_str(ind.as_str());
            }
            out.push('}');
            assert(final(out)@ =~= old(out)@ + (seq!['{'] + nl_if(style_of(*o).pretty) + fmt_msg(
                style_of(*o),
                fl.entries@,
                sub.model(),
                ind@ + step(),
            ) + (if style_of(*o).pretty {
                ind@
            } else {
                seq![]
            }) + seq!['}']));
        },
        _ => out.push_str("/* mismatched */"),
    }
}

/// Append what follows a field's name (see [`field_value_text`]).
fn push_field_value_text(
    out: &mut String,
    o: &FormatOptions,
    fl: &FloatTexts,
    pool: &DescriptorPool,
    k: KindRef,
    v: &Value,
    ind: &String,
)
    requires
        kind_ok(k, pool.view_inner().messages@.len(), pool.view_inner().enums@.len()),
    ensures
        final(out)@ == old(out)@ + field_value_text(style_of(*o), fl.entries@, pool.view_inner(), k, v.model(), ind@),
    decreases o.any_depth_flag(), v, 2int,
{
    match (k, v) {
        (KindRef::Message(_), Value::Message(sub)) => {
            out.push(' ');
            out.push('{');
            if o.is_pretty() {
                out.push('\n');
            }
            let ind2 = deeper(ind);
            let text = fmt_message(sub, o, fl, &ind2);
            out.push_str(text.as_str());
            if o.is_pretty() {
                out.push_str(ind.as_str());
            }
            out.push('}');
            assert(final(out)@ =~= old(out)@ + (seq![' ', '{'] + nl_if(style_of(*o).pretty) + fmt_msg(
                style_of(*o),
                fl.entries@,
                sub.model(),
                ind@ + step(),
            ) + (if style_of(*o).pretty {
                ind@
            } else {
                seq![]
            }) + seq!['}']));
        },
        _ => {
            out.push(':');
            out.push(' ');
            let ghost mid = out@;
            push_value_text(out, o, fl, pool, k, v, ind);
            assert(final(out)@ =~= old(out)@ + (seq![':', ' '] + value_text(style_of(*o), fl.entries@, pool.view_inner(), k, v.model(), ind@)));
        },
    }
}

/// The entry of one map entry (see [`map_entry_item`]).
fn map_entry(
    o: &FormatOptions,
    fl: &FloatTexts,
    fd: &FieldDescriptor,
    key: &MapKey,
    val: &Value,
    ind: &String,
) -> (r: (String, bool))
    ensures
        (r.0@, r.1) == map_entry_item(style_of(*o), fl.entries@, fd.pool_view(), fd.entry(), key.model(), val.model(), ind@),
    decreases o.any_depth_flag(), val, 3int,
{
    proof {
        reveal_strlit("key: ");
        reveal_strlit("value: ");
    }
    let pretty = o.is_pretty();
    let inner = deeper(ind);
    let mut s = String::new();
    s.push_str(fd.name());
    s.push(' ');
    s.push('{');
    if pretty {
        s.push('\n');
        s.push_str(inner.as_str());
    }
    s.push_str("key: ");
    push_key(&mut s, key);
    if pretty {
        s.push('\n');
        s.push_str(inner.as_str());
    } else {
        s.push(' ');
    }
    let ghost head = s@;
    assert(head =~= fd.entry().name@ + seq![' ', '{'] + (if pretty {
        seq!['\n'] + inner@
    } else {
        seq![]
    }) + seq!['k', 'e', 'y', ':', ' '] + key_text(key.model()) + (if pretty {
        seq!['\n'] + inner@
    } else {
        seq![' ']
    }));
    let _p = fd.pool_ref().inner_ref();
    proof {
        crate::message::lemma_map_kinds_ok(fd.pool_view(), fd.entry());
    }
    match map_entry_kinds(fd) {
        Some((_, vk)) => {
            s.push_str("value: ");
            push_value_text(&mut s, o, fl, fd.pool_ref(), vk, val, &inner);
            if pretty {
                s.push('\n');
                s.push_str(ind.as_str());
            }
            s.push('}');
            assert(s@ =~= head + seq!['v', 'a', 'l', 'u', 'e', ':', ' '] + value_text(style_of(*o), fl.entries@, fd.pool_view(), vk, val.model(), inner@)
                + (if pretty {
                seq!['\n'] + ind@
            } else {
                seq![]
            }) + seq!['}']);
            (s, true)
        },
        None => (s, false),
    }
}

/// Append the entries of set field `fd` holding `v` (see [`field_items`]).
fn push_field_items(
    items: &mut Vec<(String, bool)>,
    o: &FormatOptions,
    fl: &FloatTexts,
    fd: &FieldDescriptor,
    v: &Value,
    ind: &String,
)
    ensures
        items_view(final(items)@) == items_view(old(items)@) + field_items(style_of(*o), fl.entries@, fd.pool_view(), fd.entry(), v.model(), ind@),
    decreases o.any_depth_flag(), v, 4int,
{
    let k = fd.kind_ref();
    let is_map = fd.is_map();
    let is_list = fd.cardinality() == Cardinality::Repeated && !is_map;
    let ghost st = style_of(*o);
    if is_list {
        match v {
            Value::List(vs) => {
                proof {
                    crate::value::lemma_models_len(vs@);
                }
                let mut j: usize = 0;
                while j < vs.len()
                    invariant
                        j <= vs@.len(),
                        st == style_of(*o),
                        *v == Value::List(*vs),
                        k == fd.entry().kind,
                        kind_ok(k, fd.pool_view().messages@.len(), fd.pool_view().enums@.len()),
                        field_is_list(fd.pool_view(), fd.entry()),
                        v.model() == ValueModel::List(crate::value::models_of(vs@)),
                        crate::value::models_of(vs@).len() == vs@.len(),
                        forall|i: int| 0 <= i < vs@.len() ==> #[trigger] crate::value::models_of(vs@)[i] == vs@[i].model(),
                        items_view(items@) == items_view(old(items)@) + list_items(st, fl.entries@, fd.pool_view(), fd.entry(), v.model(), ind@, j as nat),
                    decreases vs@.len() - j,
                {
                    proof {
                        assert(decreases_to!(*v => *vs));
                        assert(decreases_to!(*vs => vs@));
                        assert(decreases_to!(vs@ => vs@[j as int]));
                    }
                    let mut t = String::new();
                    t.push_str(fd.name());
                    push_field_value_text(&mut t, o, fl, fd.pool_ref(), k, &vs[j], ind);
                    let ghost before = items@;
                    items.push((t, true));
                    proof {
                        lemma_items_push(before, (t, true));
                        assert(t@ =~= fd.entry().name@ + field_value_text(st, fl.entries@, fd.pool_view(), fd.entry().kind, vs@[j as int].model(), ind@));
                        assert(list_items(st, fl.entries@, fd.pool_view(), fd.entry(), v.model(), ind@, (j + 1) as nat)
                            == list_items(st, fl.entries@, fd.pool_view(), fd.entry(), v.model(), ind@, j as nat).push((t@, true)));
                        assert(items_view(items@) =~= items_view(old(items)@) + list_items(st, fl.entries@, fd.pool_view(), fd.entry(), v.model(), ind@, (j + 1) as nat));
                    }
                    j = j + 1;
                }
            },
            _ => {
                assert(items_view(old(items)@) + field_items(st, fl.entries@, fd.pool_view(), fd.entry(), v.model(), ind@) =~= items_view(old(items)@));
            },
        }
        return;
    }
    if is_map {
        match v {
            Value::Mapping(es) => {
                proof {
                    lemma_entry_models_len(es@);
                }
                let order = sorted_indices(es);
                let mut j: usize = 0;
                while j < order.len()
                    invariant
                        j <= order@.len(),
                        order@.len() == es@.len(),
                        forall|q: int| 0 <= q < order@.len() ==> #[trigger] order@[q] < es@.len(),
                        order@.map_values(|x: usize| x as int) == key_order(keys_of(entry_models(es@)), es@.len()),
                        st == style_of(*o),
                        *v == Value::Mapping(*es),
                        field_is_map(fd.pool_view(), fd.entry()),
                        !field_is_list(fd.pool_view(), fd.entry()),
                        v.model() == ValueModel::Mapping(entry_models(es@)),
                        entry_models(es@).len() == es@.len(),
                        forall|i: int| 0 <= i < es@.len() ==> #[trigger] entry_models(es@)[i] == (es@[i].0.model(), es@[i].1.model()),
                        items_view(items@) == items_view(old(items)@) + map_items(st, fl.entries@, fd.pool_view(), fd.entry(), v.model(), ind@, j as nat),
                    decreases order@.len() - j,
                {
                    let i = order[j];
                    assert(order@.map_values(|x: usize| x as int)[j as int] == i as int);
                    proof {
                        assert(decreases_to!(*v => *es));
                        assert(decreases_to!(*es => es@));
                        assert(decreases_to!(es@ => es@[i as int]));
                        assert(decreases_to!(es@[i as int] => es@[i as int].1));
                    }
                    let e = map_entry(o, fl, fd, &es[i].0, &es[i].1, ind);
                    let ghost before = items@;
                    items.push(e);
                    proof {
                        lemma_items_push(before, e);
                        assert(map_items(st, fl.entries@, fd.pool_view(), fd.entry(), v.model(), ind@, (j + 1) as nat)
                            == map_items(st, fl.entries@, fd.pool_view(), fd.entry(), v.model(), ind@, j as nat).push((e.0@, e.1)));
                        assert(items_view(items@) =~= items_view(old(items)@) + map_items(st, fl.entries@, fd.pool_view(), fd.entry(), v.model(), ind@, (j + 1) as nat));
                    }
                    j = j + 1;
                }
            },
            _ => {
                assert(items_view(old(items)@) + field_items(st, fl.entries@, fd.pool_view(), fd.entry(), v.model(), ind@) =~= items_view(old(items)@));
            },
        }
        return;
    }
    let mut t = String::new();
    t.push_str(fd.name());
    push_field_value_text(&mut t, o, fl, fd.pool_ref(), k, v, ind);
    let ghost before = items@;
    items.push((t, true));
    proof {
        lemma_items_push(before, (t, true));
    }
}

/// The type URL and decoded payload of an `Any` message (see
/// [`any_payload_of`]).
fn any_payload(m: &DynamicMessage) -> (r: Option<(String, DynamicMessage)>)
    ensures
        match r {
            Some((u, p)) => p.wf() && any_payload_of(m.model()) == Some((u@, p.model())),
            None => any_payload_of(m.model()) is None,
        },
{
    let url = match crate::json::read_named(m, "type_url") {
        Some(Value::String(s)) => s,
        _ => String::new(),
    };
    let bytes = match crate::json::read_named(m, "value") {
        Some(Value::Bytes(b)) => b,
        _ => Vec::new(),
    };
    let inner_name = crate::json::payload_name_of_url(&url);
    let pool = m.parent_pool();
    let inner_desc = match pool.get_message_by_name(inner_name.as_str()) {
        Some(d) => d,
        None => {
            return None;
        },
    };
    match DynamicMessage::decode(inner_desc, bytes.as_slice()) {
        Ok(p) => Some((url, p)),
        Err(_) => None,
    }
}

/// The text of message `m` (see [`fmt_msg`]).
fn fmt_message(m: &DynamicMessage, o: &FormatOptions, fl: &FloatTexts, ind: &String) -> (r: String)
    ensures
        r@ == fmt_msg(style_of(*o), fl.entries@, m.model(), ind@),
    decreases o.any_depth_flag(), m, 0int,
{
    proof {
        m.lemma_model();
        crate::message::lemma_slot_models_len(m.fields@);
    }
    let ghost st = style_of(*o);
    let ghost mm = m.model();
    if o.expands_any() && o.any_depth_left() > 0 && crate::json::is_any_name(m.desc.full_name()) {
        match any_payload(m) {
            Some((url, p)) => {
                let o2 = o.with_any_depth(o.any_depth_left() - 1);
                let d = deeper(ind);
                let inner = fmt_message(&p, &o2, fl, &d);
                let pretty = o.is_pretty();
                let mut t = "[".to_owned();
                t.push_str(url.as_str());
                t.push_str("] {");
                if pretty {
                    t.push('\n');
                }
                t.push_str(inner.as_str());
                if pretty {
                    t.push_str(ind.as_str());
                }
                t.push('}');
                proof {
                    reveal_strlit("[");
                    reveal_strlit("] {");
                    assert(style_of(o2) == Style { any_fuel: (st.any_fuel - 1) as nat, ..st });
                    assert(t@ =~= seq!['['] + url@ + seq![']', ' ', '{'] + nl_if(st.pretty) + fmt_msg(
                        Style { any_fuel: (st.any_fuel - 1) as nat, ..st },
                        fl.entries@,
                        p.model(),
                        ind@ + step(),
                    ) + (if st.pretty {
                        ind@
                    } else {
                        seq![]
                    }) + seq!['}']);
                }
                let mut items: Vec<(String, bool)> = Vec::new();
                let ghost before = items@;
                items.push((t, true));
                proof {
                    lemma_items_push(before, (t, true));
                    assert(items_view(items@) =~= msg_items(st, fl.entries@, mm, ind@));
                }
                return lay_out_items(&items, pretty, ind);
            },
            None => {},
        }
    }
    proof {
        assert(any_expansion(st, mm) is None);
        assert(msg_items(st, fl.entries@, mm, ind@) == known_items(st, fl.entries@, mm, ind@));
    }
    let mut items: Vec<(String, bool)> = Vec::new();
    if o.in_index_order() {
        let fds = m.desc.fields();
        let mut j: usize = 0;
        while j < fds.len()
            invariant
                j <= fds@.len(),
                fds@.len() == fields_of(mm.pool, mm.index).len(),
                forall|q: int|
                    0 <= q < fds@.len() ==> (#[trigger] fds@[q]).pool_view() == mm.pool
                        && fds@[q].message() == mm.index && fds@[q].index() == q,
                mm == m.model(),
                mm.pool == m.desc.pool_view(),
                mm.index == m.desc.index(),
                st == style_of(*o),
                mm.slots == crate::message::slot_models(m.fields@),
                mm.slots.len() == m.fields@.len(),
                forall|i: int| 0 <= i < m.fields@.len() ==> #[trigger] crate::message::slot_models(m.fields@)[i] == (m.fields@[i].0, m.fields@[i].1.model()),
                items_view(items@) == decl_items(st, fl.entries@, mm, ind@, j as nat),
            decreases fds@.len() - j,
        {
            let fd = &fds[j];
            let n = fd.number();
            assert(fd.entry() == fields_of(mm.pool, mm.index)[j as int]);
            let ghost before = items@;
            match slot_position(&m.fields, n) {
                Some(p) => {
                    match &m.fields[p].1 {
                        Slot::Value(v) => {
                            proof {
                                assert(decreases_to!(*m => m.fields));
                                assert(decreases_to!(m.fields => m.fields@));
                                assert(decreases_to!(m.fields@ => m.fields@[p as int]));
                                assert(decreases_to!(m.fields@[p as int] => m.fields@[p as int].1));
                            }
                            let kk = fd.kind_ref();
                            let zero = is_zero_value(kk, v);
                            if (fd.supports_presence() || !zero) && !(o.skips_defaults() && zero) {
                                push_field_items(&mut items, o, fl, fd, v, ind);
                            }
                        },
                        Slot::Unknown(_) => {},
                    }
                },
                None => {},
            }
            assert(items_view(items@) =~= decl_items(st, fl.entries@, mm, ind@, (j + 1) as nat));
            j = j + 1;
        }
    } else {
        let mut k: usize = 0;
        while k < m.fields.len()
            invariant
                k <= m.fields@.len(),
                mm == m.model(),
                mm.pool == m.desc.pool_view(),
                mm.index == m.desc.index(),
                st == style_of(*o),
                mm.slots == crate::message::slot_models(m.fields@),
                mm.slots.len() == m.fields@.len(),
                forall|i: int| 0 <= i < m.fields@.len() ==> #[trigger] crate::message::slot_models(m.fields@)[i] == (m.fields@[i].0, m.fields@[i].1.model()),
                items_view(items@) == slot_items(st, fl.entries@, mm, ind@, k as nat),
            decreases m.fields@.len() - k,
        {
            let n = m.fields[k].0;
            let ghost before = items@;
            match &m.fields[k].1 {
                Slot::Value(v) => {
                    proof {
                        assert(decreases_to!(*m => m.fields));
                        assert(decreases_to!(m.fields => m.fields@));
                        assert(decreases_to!(m.fields@ => m.fields@[k as int]));
                        assert(decreases_to!(m.fields@[k as int] => m.fields@[k as int].1));
                    }
                    match crate::codec::field_for(&m.desc, n) {
                        Some(fd) => {
                            let kk = fd.kind_ref();
                            let zero = is_zero_value(kk, v);
                            if (fd.supports_presence() || !zero) && !(o.skips_defaults() && zero) {
                                push_field_items(&mut items, o, fl, &fd, v, ind);
                            }
                        },
                        None => {},
                    }
                },
                Slot::Unknown(_) => {},
            }
            assert(items_view(items@) =~= slot_items(st, fl.entries@, mm, ind@, (k + 1) as nat));
            k = k + 1;
        }
    }
    if !o.skips_unknown() {
        let mut k: usize = 0;
        let ghost known = items_view(items@);
        while k < m.fields.len()
            invariant
                k <= m.fields@.len(),
                mm == m.model(),
                mm.pool == m.desc.pool_view(),
                mm.index == m.desc.index(),
                st == style_of(*o),
                mm.slots == crate::message::slot_models(m.fields@),
                mm.slots.len() == m.fields@.len(),
                forall|i: int| 0 <= i < m.fields@.len() ==> #[trigger] crate::message::slot_models(m.fields@)[i] == (m.fields@[i].0, m.fields@[i].1.model()),
                items_view(items@) == known + unknown_items(mm.slots, k as nat),
            decreases m.fields@.len() - k,
        {
            let n = m.fields[k].0;
            match &m.fields[k].1 {
                Slot::Unknown(set) => {
                    proof {
                        crate::value::lemma_unknown_models_len(set.items@);
                    }
                    let ghost base = items_view(items@);
                    let mut q: usize = 0;
                    while q < set.items.len()
                        invariant
                            q <= set.items@.len(),
                            crate::value::unknown_models(set.items@).len() == set.items@.len(),
                            forall|i: int| 0 <= i < set.items@.len() ==> #[trigger] crate::value::unknown_models(set.items@)[i] == set.items@[i].model(),
                            items_view(items@) == base + unknown_entries(n, crate::value::unknown_models(set.items@).take(q as int)),
                        decreases set.items@.len() - q,
                    {
                        let mut t = String::new();
                        push_decimal(&mut t, n as u64);
                        t.push(':');
                        t.push(' ');
                        push_unknown(&mut t, &set.items[q]);
                        let ghost before = items@;
                        items.push((t, true));
                        proof {
                            lemma_items_push(before, (t, true));
                            let us = crate::value::unknown_models(set.items@);
                            assert(us.take(q + 1).drop_last() =~= us.take(q as int));
                            assert(us.take(q + 1).last() == set.items@[q as int].model());
                            assert(t@ =~= spec_decimal(n as nat) + seq![':', ' '] + unknown_text(set.items@[q as int].model()));
                            assert(items_view(items@) =~= base + unknown_entries(n, us.take(q + 1)));
                        }
                        q = q + 1;
                    }
                    proof {
                        let us = crate::value::unknown_models(set.items@);
                        assert(us.take(us.len() as int) =~= us);
                    }
                },
                Slot::Value(_) => {},
            }
            k = k + 1;
        }
    }
    lay_out_items(&items, o.is_pretty(), ind)
}

/// The first position of a slot numbered `n`.
pub(crate) fn slot_position(fields: &Vec<(u32, Slot)>, n: u32) -> (r: Option<usize>)
    ensures
        match r {
            Some(p) => p < fields@.len() && slot_index(crate::message::slot_models(fields@), n) == p,
            None => slot_index(crate::message::slot_models(fields@), n) == -1,
        },
{
    proof {
        crate::message::lemma_slot_models_len(fields@);
        lemma_slot_index(crate::message::slot_models(fields@), n);
    }
    let mut i: usize = 0;
    while i < fields.len()
        invariant
            i <= fields@.len(),
            forall|j: int| 0 <= j < i ==> #[trigger] fields@[j].0 != n,
        decreases fields@.len() - i,
    {
        if fields[i].0 == n {
            proof {
                crate::message::lemma_slot_models_len(fields@);
                let sm = crate::message::slot_models(fields@);
                lemma_slot_index(sm, n);
                assert(sm[i as int].0 == n);
                assert forall|j: int| 0 <= j < i implies #[trigger] sm[j].0 != n by {
                    assert(sm[j].0 == fields@[j].0);
                }
            }
            return Some(i);
        }
        i = i + 1;
    }
    proof {
        let sm = crate::message::slot_models(fields@);
        assert forall|j: int| 0 <= j < sm.len() implies #[trigger] sm[j].0 != n by {
            assert(sm[j].0 == fields@[j].0);
        }
    }
    None
}

pub proof fn lemma_slot_index(s: Seq<(u32, SlotModel)>, n: u32)
    ensures
        -1 <= slot_index(s, n) < s.len(),
        slot_index(s, n) >= 0 ==> s[slot_index(s, n)].0 == n && forall|j: int| 0 <= j < slot_index(s, n) ==> #[trigger] s[j].0 != n,
        slot_index(s, n) < 0 ==> forall|j: int| 0 <= j < s.len() ==> #[trigger] s[j].0 != n,
    decreases s.len(),
{
    if s.len() > 0 {
        lemma_slot_index(s.drop_last(), n);
        assert forall|j: int| 0 <= j < s.len() - 1 implies #[trigger] s[j] == s.drop_last()[j] by {}
    }
}


/// The settings of [`FormatOptions::new`]: compact, unknown fields and
/// defaults kept, number order.
pub open spec fn default_style() -> Style {
    Style {
        pretty: false,
        skip_unknown: false,
        skip_default: false,
        index_order: false,
        expand_any: true,
        any_fuel: crate::options::ANY_EXPANSION_DEPTH as nat,
    }
}

impl DynamicMessage {
    /// The message in text format, compact, with the default settings.
    pub fn to_text_format(&self, floats: &FloatTexts) -> (r: String)
        ensures
            r@ == fmt_msg(default_style(), floats.entries@, self.model(), seq![]),
    {
        let o = FormatOptions::new();
        self.to_text_format_with_options(&o, floats)
    }

    /// The message in text format, with `options`.
    pub fn to_text_format_with_options(&self, options: &FormatOptions, floats: &FloatTexts) -> (r:
        String)
        ensures
            r@ == fmt_msg(style_of(*options), floats.entries@, self.model(), seq![]),
    {
        let ind = String::new();
        fmt_message(self, options, floats, &ind)
    }

    /// The floating-point values in the message, its sub-messages, lists and
    /// maps included, as (`true` for `f32`, bits) pairs: the values a
    /// [`FloatTexts`] table for printing it needs entries for.
    pub fn float_values(&self) -> (r: Vec<(bool, u64)>)
        ensures
            r@ == msg_floats(self.model(), self.model().slots.len()),
        decreases self,
    {
        proof {
            self.lemma_model();
            crate::message::lemma_slot_models_len(self.fields@);
        }
        let mut out: Vec<(bool, u64)> = Vec::new();
        let mut k: usize = 0;
        while k < self.fields.len()
            invariant
                k <= self.fields@.len(),
                self.model().slots == crate::message::slot_models(self.fields@),
                self.model().slots.len() == self.fields@.len(),
                forall|j: int|
                    0 <= j < self.fields@.len() ==> #[trigger] self.model().slots[j] == (
                        self.fields@[j].0,
                        self.fields@[j].1.model(),
                    ),
                out@ == msg_floats(self.model(), k as nat),
            decreases self.fields@.len() - k,
        {
            match &self.fields[k].1 {
                Slot::Value(v) => {
                    proof {
                        assert(decreases_to!(*self => self.fields));
                        assert(decreases_to!(self.fields => self.fields@));
                        assert(decreases_to!(self.fields@ => self.fields@[k as int]));
                        assert(decreases_to!(self.fields@[k as int] => self.fields@[k as int].1));
                    }
                    collect_floats(v, &mut out);
                },
                Slot::Unknown(_) => {},
            }
            k = k + 1;
        }
        out
    }
}

/// The floating-point values among the first `k` slots of `m`.
pub open spec fn msg_floats(m: MessageModel, k: nat) -> Seq<(bool, u64)>
    decreases m, k,
{
    if k == 0 || k > m.slots.len() {
        seq![]
    } else {
        msg_floats(m, (k - 1) as nat) + match m.slots[k - 1].1 {
            SlotModel::Value(v) => value_floats(v),
            SlotModel::Unknown(_) => seq![],
        }
    }
}

/// The floating-point values in `v`, as (`true` for `f32`, bits) pairs.
pub open spec fn value_floats(v: ValueModel) -> Seq<(bool, u64)>
    decreases v, value_weight(v),
{
    match v {
        ValueModel::F32(b) => seq![(true, b as u64)],
        ValueModel::F64(b) => seq![(false, b)],
        ValueModel::Message(m) => msg_floats(m, m.slots.len()),
        ValueModel::List(items) => part_floats(v, items.len()),
        ValueModel::Mapping(es) => part_floats(v, es.len()),
        _ => seq![],
    }
}

/// The floating-point values in the first `k` items of list `v`, or in
/// the values of its first `k` entries when it is a map.
pub open spec fn part_floats(v: ValueModel, k: nat) -> Seq<(bool, u64)>
    decreases v, k,
{
    match v {
        ValueModel::List(items) => if k == 0 || k > items.len() {
            seq![]
        } else {
            part_floats(v, (k - 1) as nat) + value_floats(items[k - 1])
        },
        ValueModel::Mapping(es) => if k == 0 || k > es.len() {
            seq![]
        } else {
            part_floats(v, (k - 1) as nat) + value_floats(es[k - 1].1)
        },
        _ => seq![],
    }
}

/// Append the floating-point values found in `v`.
fn collect_floats(v: &Value, out: &mut Vec<(bool, u64)>)
    ensures
        final(out)@ == old(out)@ + value_floats(v.model()),
    decreases v,
{
    match v {
        Value::F32(b) => out.push((true, *b as u64)),
        Value::F64(b) => out.push((false, *b)),
        Value::Message(m) => {
            let inner = m.float_values();
            let ghost start = out@;
            let mut i: usize = 0;
            while i < inner.len()
                invariant
                    i <= inner@.len(),
                    out@ == start + inner@.take(i as int),
                decreases inner@.len() - i,
            {
                proof {
                    assert(inner@.take(i + 1) =~= inner@.take(i as int).push(inner@[i as int]));
                }
                out.push(inner[i]);
                i = i + 1;
            }
            proof {
                assert(inner@.take(i as int) =~= inner@);
            }
        },
        Value::List(items) => {
            let ghost start = out@;
            proof {
                crate::value::lemma_models_len(items@);
            }
            let mut i: usize = 0;
            while i < items.len()
                invariant
                    *v == Value::List(*items),
                    i <= items@.len(),
                    crate::value::models_of(items@).len() == items@.len(),
                    forall|j: int|
                        0 <= j < items@.len() ==> #[trigger] crate::value::models_of(items@)[j]
                            == items@[j].model(),
                    out@ == start + part_floats(v.model(), i as nat),
                decreases items@.len() - i,
            {
                proof {
                    assert(*items == v->List_0);
                    assert(decreases_to!(*v => v->List_0));
                    assert(decreases_to!(*items => items@));
                    assert(decreases_to!(items@ => items@[i as int]));
                }
                let ghost before = out@;
                collect_floats(&items[i], out);
                proof {
                    assert(out@ =~= start + part_floats(v.model(), (i + 1) as nat));
                }
                i = i + 1;
            }
        },
        Value::Mapping(es) => {
            let ghost start = out@;
            proof {
                lemma_entry_models_len(es@);
            }
            let mut i: usize = 0;
            while i < es.len()
                invariant
                    *v == Value::Mapping(*es),
                    i <= es@.len(),
                    entry_models(es@).len() == es@.len(),
                    forall|j: int|
                        0 <= j < es@.len() ==> #[trigger] entry_models(es@)[j] == (
                            es@[j].0.model(),
                            es@[j].1.model(),
                        ),
                    out@ == start + part_floats(v.model(), i as nat),
                decreases es@.len() - i,
            {
                proof {
                    assert(*es == v->Mapping_0);
                    assert(decreases_to!(*v => v->Mapping_0));
                    assert(decreases_to!(*es => es@));
                    assert(decreases_to!(es@ => es@[i as int]));
                    assert(decreases_to!(es@[i as int] => es@[i as int].1));
                }
                collect_floats(&es[i].1, out);
                proof {
                    assert(out@ =~= start + part_floats(v.model(), (i + 1) as nat));
                }
                i = i + 1;
            }
        },
        _ => {},
    }
}

} // verus!
