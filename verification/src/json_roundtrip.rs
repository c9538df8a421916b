//! Reading back what the JSON mapping writes gives the message back.

use vstd::prelude::*;

use crate::case::wkt_names;
use crate::defaults::enum_value_by_name;
use crate::json::{
    as_array, as_object, ascii_of, b64_digit, b64_standard_decoded, b64_url_decoded, b64_url_digit, base64_std, base64_url, de_element, de_entries, de_field, de_items, de_message, de_plain,
    decimal_of, entries_out, field_out, field_set, field_value, full_name_of, integer_in,
    items_out, json_f32, json_f64, json_float_bits, json_integer, json_key, json_map_key,
    json_scalar, keyed, member_field, members_out, msg_out, nan32, nan64, scalar_of_json,
    signed_within, stored_value, then_push, value_out, JsonModel, JsonNumber, JsonStyle,
    NumberValue, Outcome,
};
use crate::literal::{digit_value, digits_value, spec_from_str_radix};
use crate::message::{
    entries_put, entry_by_number, field_is_map, fields_of, is_sibling, key_fits, key_index,
    kind_fits, lemma_entry_by_number, lemma_key_index, lemma_slot_get_index, lemma_sorted_slots,
    map_kinds, numbers_sorted, set_map, slot_get, slot_view, MessageModel, SlotModel,
};
use crate::pool::{kind_ok, Cardinality, EnumValueEntry, FieldEntry, KindRef, PoolInner};
use crate::roundtrip::no_sibling_slots;
use crate::textfmt::{bool_text, key_order, keys_of, lemma_slot_index, slot_index};
use crate::textparse::message_from;
use crate::value::KeyModel;
use crate::text::{digit_char, spec_decimal, spec_decimal_int};
use crate::textfmt::enum_name_of;
use crate::value::ValueModel;
use crate::wire::{spec_i32_of_bits, spec_u64_of_int};

verus! {

// ── JSON text read back ─────────────────────────────────────────────────

/// `b` is what reading the JSON text of `a` back gives: integers come
/// back as numbers of the same sign and value, a float as a number whose
/// conversion to the float's width has the same bits, strings, booleans
/// and null as they are, arrays and objects member by member.
pub open spec fn reread(a: JsonModel, b: JsonModel) -> bool
    decreases a,
{
    match a {
        JsonModel::Int(x) => match b {
            JsonModel::Number(n) => n.value == (if x < 0 {
                NumberValue::Int(x)
            } else {
                NumberValue::Uint(x as u64)
            }),
            _ => false,
        },
        JsonModel::Uint(x) => match b {
            JsonModel::Number(n) => n.value == NumberValue::Uint(x),
            _ => false,
        },
        JsonModel::Float32(x) => match b {
            JsonModel::Number(n) => n.as_f32 == x,
            _ => false,
        },
        JsonModel::Float64(x) => match b {
            JsonModel::Number(n) => n.as_f64 == x,
            _ => false,
        },
        JsonModel::Array(xs) => match b {
            JsonModel::Array(ys) => xs.len() == ys.len() && forall|i: int|
                #![trigger ys[i]]
                0 <= i < xs.len() ==> reread(xs[i], ys[i]),
            _ => false,
        },
        JsonModel::Object(xs) => match b {
            JsonModel::Object(ys) => xs.len() == ys.len() && forall|i: int|
                #![trigger ys[i]]
                0 <= i < xs.len() ==> ys[i].0 == xs[i].0 && reread(xs[i].1, ys[i].1),
            _ => false,
        },
        _ => b == a,
    }
}

// ── integers in decimal ─────────────────────────────────────────────────

proof fn lemma_digit(d: nat)
    requires
        d < 10,
    ensures
        digit_value(digit_char(d), 10) == Some(d),
        '0' <= digit_char(d) <= '9',
{
    assert(digit_char(d) as int == 48 + d);
}

pub(crate) proof fn lemma_decimal_digits(v: nat)
    ensures
        digits_value(spec_decimal(v), 10) == Some(v),
        spec_decimal(v).len() > 0,
        '0' <= spec_decimal(v)[0] <= '9',
    decreases v,
{
    lemma_digit(v % 10);
    if v < 10 {
        let s = spec_decimal(v);
        assert(s.drop_last() =~= Seq::<char>::empty());
        assert(v % 10 == v);
        assert(digits_value(s.drop_last(), 10) == Some(0nat));
        assert(0nat * 10 + v == v);
    } else {
        lemma_decimal_digits(v / 10);
        let s = spec_decimal(v);
        let w = v / 10;
        assert(w * 10 + v % 10 == v) by (nonlinear_arith)
            requires
                w == v / 10,
        ;
        assert(s.drop_last() == spec_decimal(v / 10));
        assert(s.last() == digit_char(v % 10));
        assert(digits_value(s, 10) == Some(w * 10 + v % 10));
        assert(s[0] == spec_decimal(v / 10)[0]);
    }
}

/// The decimal text of an integer reads back as its sign and magnitude.
proof fn lemma_decimal_back(v: int)
    requires
        -0x1_0000_0000_0000_0000 < v < 0x1_0000_0000_0000_0000,
    ensures
        decimal_of(spec_decimal_int(v)) == Some((v < 0, (if v < 0 { -v } else { v }) as u64)),
        spec_decimal_int(v).len() > 0,
        v >= 0 ==> spec_decimal_int(v)[0] != '-',
{
    let mag: nat = (if v < 0 { -v } else { v }) as nat;
    lemma_decimal_digits(mag);
    let d = spec_decimal(mag);
    if v < 0 {
        let s = spec_decimal_int(v);
        assert(s.skip(1) =~= d);
        assert(s[1] == d[0]);
    }
}

// ── enums ───────────────────────────────────────────────────────────────

/// No two values of any enum of `pool` share a name.
pub open spec fn enum_names_apart(pool: PoolInner) -> bool {
    forall|e: int, i: int, j: int|
        0 <= e < pool.enums@.len() && 0 <= i < j < pool.enums@[e].values@.len()
            ==> #[trigger] pool.enums@[e].values@[i].name@ != #[trigger] pool.enums@[e].values@[j].name@
}

proof fn lemma_enum_name_back(vs: Seq<EnumValueEntry>, n: i32)
    requires
        forall|i: int, j: int| 0 <= i < j < vs.len() ==> #[trigger] vs[i].name@ != #[trigger] vs[j].name@,
        enum_name_of(vs, n) is Some,
    ensures
        enum_value_by_name(vs, enum_name_of(vs, n)->0) == Some(n),
        exists|i: int| 0 <= i < vs.len() && #[trigger] vs[i].name@ == enum_name_of(vs, n)->0,
    decreases vs.len(),
{
    if vs[0].number != n {
        let t = vs.drop_first();
        assert forall|i: int, j: int| 0 <= i < j < t.len() implies #[trigger] t[i].name@ != #[trigger] t[j].name@ by {
            assert(t[i] == vs[i + 1] && t[j] == vs[j + 1]);
        }
        lemma_enum_name_back(t, n);
        let i = choose|i: int| 0 <= i < t.len() && #[trigger] t[i].name@ == enum_name_of(t, n)->0;
        assert(vs[i + 1] == t[i]);
        assert(vs[0].name@ != vs[i + 1].name@);
    }
}

proof fn lemma_i32_bits(n: i32)
    ensures
        n >= 0 ==> spec_i32_of_bits(n as nat) == n,
        n < 0 ==> spec_i32_of_bits(spec_u64_of_int(n as int)) == n,
{
    if n < 0 {
        let u = spec_u64_of_int(n as int);
        assert(u == n + 0x1_0000_0000_0000_0000);
        assert(u % 0x1_0000_0000 == n + 0x1_0000_0000) by (nonlinear_arith)
            requires
                u == n + 0x1_0000_0000_0000_0000,
                -0x8000_0000 <= n < 0,
        {
            assert(u == (n + 0x1_0000_0000) + 0xffff_ffff * 0x1_0000_0000);
        }
    }
}

// ── scalars ─────────────────────────────────────────────────────────────

/// A scalar or enum value the JSON mapping carries through: it fits its
/// kind, and a float is not a NaN.
pub open spec fn scalar_ready(pool: PoolInner, k: KindRef, v: ValueModel) -> bool {
    &&& kind_fits(pool, k, v)
    &&& kind_ok(k, pool.messages@.len(), pool.enums@.len())
    &&& !(k is Message)
    &&& match v {
        ValueModel::F32(b) => !nan32(b),
        ValueModel::F64(b) => !nan64(b),
        _ => true,
    }
}

/// Reading back the JSON of a scalar or enum value gives the value.
pub proof fn lemma_scalar_back(
    pool: PoolInner,
    st: JsonStyle,
    k: KindRef,
    v: ValueModel,
    j2: JsonModel,
    fl: Seq<(String, u32, u64)>,
)
    requires
        scalar_ready(pool, k, v),
        enum_names_apart(pool),
        json_scalar(pool, st, k, v) is Some,
        reread(json_scalar(pool, st, k, v)->0, j2),
    ensures
        scalar_of_json(pool, k, j2, fl) == Some(v),
{
    let j = json_scalar(pool, st, k, v)->0;
    match v {
        ValueModel::I32(x) => {
            let n = j2->Number_0;
            if x < 0 {
                assert(n.value == NumberValue::Int(x as i64));
                assert((-(x as i64)) as u64 == -x);
                assert(json_integer(k, j2) == Some(ValueModel::I32(x)));
            } else {
                assert(n.value == NumberValue::Uint(x as u64));
                assert(json_integer(k, j2) == Some(ValueModel::I32(x)));
            }
            assert(scalar_of_json(pool, k, j2, fl) == Some(v));
        },
        ValueModel::I64(x) => {
            if st.stringify_64 {
                lemma_decimal_back(x as int);
            } else if x < 0 {
                assert((-x) as u64 == -x);
            }
            assert(scalar_of_json(pool, k, j2, fl) == Some(v));
        },
        ValueModel::U32(x) => {
            assert(scalar_of_json(pool, k, j2, fl) == Some(v));
        },
        ValueModel::U64(x) => {
            if st.stringify_64 {
                lemma_decimal_back(x as int);
            }
            assert(scalar_of_json(pool, k, j2, fl) == Some(v));
        },
        ValueModel::EnumNumber(n) => {
            lemma_i32_bits(n);
            if let KindRef::Enum(e) = k {
                if !st.enum_numbers && enum_name_of(pool.enums@[e as int].values@, n) is Some {
                    let vs = pool.enums@[e as int].values@;
                    assert forall|i: int, jj: int| 0 <= i < jj < vs.len() implies #[trigger] vs[i].name@
                        != #[trigger] vs[jj].name@ by {
                        assert(pool.enums@[e as int].values@[i].name@ != pool.enums@[e as int].values@[jj].name@);
                    }
                    lemma_enum_name_back(vs, n);
                }
            }
            assert(scalar_of_json(pool, k, j2, fl) == Some(v));
        },
        ValueModel::Bytes(b) => {
            lemma_b64_decodes(false, b);
            assert(scalar_of_json(pool, k, j2, fl) == Some(v));
        },
        ValueModel::F32(b) => {
            reveal_strlit("NaN");
            reveal_strlit("Infinity");
            reveal_strlit("-Infinity");
            assert(scalar_of_json(pool, k, j2, fl) == Some(v));
        },
        ValueModel::F64(b) => {
            reveal_strlit("NaN");
            reveal_strlit("Infinity");
            reveal_strlit("-Infinity");
            assert(scalar_of_json(pool, k, j2, fl) == Some(v));
        },
        _ => {
            assert(scalar_of_json(pool, k, j2, fl) == Some(v));
        },
    }
}

// ── base64 ──────────────────────────────────────────────────────────────

proof fn lemma_b64_digit(v: int)
    requires
        0 <= v < 64,
    ensures
        b64_digit(v) as int == (if v < 26 {
            65 + v
        } else if v < 52 {
            97 + v - 26
        } else if v < 62 {
            48 + v - 52
        } else if v == 62 {
            43
        } else {
            47
        }),
{
}

/// A digit of the standard (`url` false) or the URL-safe base64 alphabet.
spec fn b64_char(url: bool, v: int) -> char {
    if url {
        b64_url_digit(v)
    } else {
        b64_digit(v)
    }
}

/// Padded base64 of `b` in the standard or the URL-safe alphabet.
spec fn b64_text(url: bool, b: Seq<u8>) -> Seq<char> {
    if url {
        base64_url(b)
    } else {
        base64_std(b)
    }
}

/// The value a digit of either alphabet stands for.
spec fn b64_value(c: char) -> int {
    if 'A' <= c <= 'Z' {
        c as int - 65
    } else if 'a' <= c <= 'z' {
        c as int - 71
    } else if '0' <= c <= '9' {
        c as int + 4
    } else if c == '+' || c == '-' {
        62
    } else {
        63
    }
}

/// Each digit is ASCII, not the pad `=`, and stands for its value in
/// both alphabets.
proof fn lemma_b64_char(url: bool, v: int)
    requires
        0 <= v < 64,
    ensures
        b64_value(b64_char(url, v)) == v,
        b64_char(url, v) != '=',
        (b64_char(url, v) as int) < 128,
{
    lemma_b64_digit(v);
}

/// The first four characters of base64 text encode the first (up to)
/// three bytes, with `=` for each byte the group lacks; the rest is the
/// text of the bytes after them.
proof fn lemma_b64_head(url: bool, b: Seq<u8>)
    requires
        b.len() > 0,
    ensures
        ({
            let t = b64_text(url, b);
            let b0 = b[0] as int;
            let b1 = if b.len() > 1 { b[1] as int } else { 0 };
            let b2 = if b.len() > 2 { b[2] as int } else { 0 };
            &&& t.len() >= 4
            &&& t[0] == b64_char(url, b0 / 4)
            &&& t[1] == b64_char(url, (b0 % 4) * 16 + b1 / 16)
            &&& t[2] == (if b.len() == 1 { '=' } else { b64_char(url, (b1 % 16) * 4 + b2 / 64) })
            &&& t[3] == (if b.len() <= 2 { '=' } else { b64_char(url, b2 % 64) })
            &&& (b.len() <= 2 ==> t.len() == 4)
            &&& (b.len() >= 3 ==> t.skip(4) == b64_text(url, b.skip(3)))
        }),
{
    let t = b64_text(url, b);
    if b.len() >= 3 {
        assert(t.skip(4) =~= b64_text(url, b.skip(3)));
    }
}

/// Base64 text is ASCII.
proof fn lemma_b64_shape(url: bool, b: Seq<u8>)
    ensures
        vstd::utf8::is_ascii_chars(b64_text(url, b)),
    decreases b.len(),
{
    let t = b64_text(url, b);
    if b.len() == 0 {
        assert(t.len() == 0);
    } else {
        lemma_b64_head(url, b);
        let b0 = b[0] as int;
        let b1 = if b.len() > 1 { b[1] as int } else { 0 };
        let b2 = if b.len() > 2 { b[2] as int } else { 0 };
        lemma_b64_char(url, b0 / 4);
        lemma_b64_char(url, (b0 % 4) * 16 + b1 / 16);
        lemma_b64_char(url, (b1 % 16) * 4 + b2 / 64);
        lemma_b64_char(url, b2 % 64);
        if b.len() >= 3 {
            lemma_b64_shape(url, b.skip(3));
        }
        assert forall|i: int| 0 <= i < t.len() implies '\0' <= #[trigger] t[i] <= '\u{7f}' by {
            if i >= 4 {
                assert(t[i] == t.skip(4)[i - 4]);
            }
        }
    }
}

/// Distinct byte strings have distinct base64 texts, whichever of the
/// two alphabets each is written in.
proof fn lemma_b64_inj(ua: bool, a: Seq<u8>, ub: bool, b: Seq<u8>)
    requires
        b64_text(ua, a) == b64_text(ub, b),
    ensures
        a == b,
    decreases a.len(),
{
    if a.len() == 0 || b.len() == 0 {
        if a.len() > 0 {
            lemma_b64_head(ua, a);
        }
        if b.len() > 0 {
            lemma_b64_head(ub, b);
        }
        assert(a =~= b);
    } else {
        lemma_b64_head(ua, a);
        lemma_b64_head(ub, b);
        let s = b64_text(ua, a);
        let a0 = a[0] as int;
        let a1 = if a.len() > 1 { a[1] as int } else { 0 };
        let a2 = if a.len() > 2 { a[2] as int } else { 0 };
        let c0 = b[0] as int;
        let c1 = if b.len() > 1 { b[1] as int } else { 0 };
        let c2 = if b.len() > 2 { b[2] as int } else { 0 };
        lemma_b64_char(ua, a0 / 4);
        lemma_b64_char(ub, c0 / 4);
        lemma_b64_char(ua, (a0 % 4) * 16 + a1 / 16);
        lemma_b64_char(ub, (c0 % 4) * 16 + c1 / 16);
        lemma_b64_char(ua, (a1 % 16) * 4 + a2 / 64);
        lemma_b64_char(ub, (c1 % 16) * 4 + c2 / 64);
        lemma_b64_char(ua, a2 % 64);
        lemma_b64_char(ub, c2 % 64);
        // the padding tells how many bytes the first group holds
        assert((a.len() == 1) == (b.len() == 1));
        assert((a.len() <= 2) == (b.len() <= 2));
        assert(b64_value(s[0]) == a0 / 4 && b64_value(s[0]) == c0 / 4);
        assert(b64_value(s[1]) == (a0 % 4) * 16 + a1 / 16);
        assert(b64_value(s[1]) == (c0 % 4) * 16 + c1 / 16);
        if a.len() >= 2 {
            assert(b64_value(s[2]) == (a1 % 16) * 4 + a2 / 64);
            assert(b64_value(s[2]) == (c1 % 16) * 4 + c2 / 64);
        }
        if a.len() >= 3 {
            assert(b64_value(s[3]) == a2 % 64 && b64_value(s[3]) == c2 % 64);
        }
        lemma_b64_groups(a0, a1, a2, c0, c1, c2);
        if a.len() >= 3 {
            assert(b64_text(ua, a.skip(3)) == b64_text(ub, b.skip(3)));
            lemma_b64_inj(ua, a.skip(3), ub, b.skip(3));
            assert forall|i: int| 0 <= i < a.len() implies a[i] == b[i] by {
                if i >= 3 {
                    assert(a[i] == a.skip(3)[i - 3]);
                    assert(b[i] == b.skip(3)[i - 3]);
                }
            }
        }
        assert(a =~= b);
    }
}

/// Three bytes are fixed by the four 6-bit groups they split into.
proof fn lemma_b64_groups(x0: int, x1: int, x2: int, y0: int, y1: int, y2: int)
    requires
        0 <= x0 < 256,
        0 <= x1 < 256,
        0 <= x2 < 256,
        0 <= y0 < 256,
        0 <= y1 < 256,
        0 <= y2 < 256,
        x0 / 4 == y0 / 4,
        (x0 % 4) * 16 + x1 / 16 == (y0 % 4) * 16 + y1 / 16,
        (x1 % 16) * 4 + x2 / 64 == (y1 % 16) * 4 + y2 / 64,
        x2 % 64 == y2 % 64,
    ensures
        x0 == y0,
        x1 == y1,
        x2 == y2,
{
    assert(x0 % 4 == y0 % 4 && x1 / 16 == y1 / 16) by (nonlinear_arith)
        requires
            0 <= x0 % 4 < 4,
            0 <= y0 % 4 < 4,
            0 <= x1 / 16 < 16,
            0 <= y1 / 16 < 16,
            (x0 % 4) * 16 + x1 / 16 == (y0 % 4) * 16 + y1 / 16,
    ;
    assert(x1 % 16 == y1 % 16 && x2 / 64 == y2 / 64) by (nonlinear_arith)
        requires
            0 <= x1 % 16 < 16,
            0 <= y1 % 16 < 16,
            0 <= x2 / 64 < 4,
            0 <= y2 / 64 < 4,
            (x1 % 16) * 4 + x2 / 64 == (y1 % 16) * 4 + y2 / 64,
    ;
}

/// Two ASCII texts with the same bytes are the same text.
proof fn lemma_ascii_of_inj(s: Seq<char>, t: Seq<char>)
    requires
        vstd::utf8::is_ascii_chars(s),
        vstd::utf8::is_ascii_chars(t),
        ascii_of(s) == ascii_of(t),
    ensures
        s == t,
{
    assert(s.len() == ascii_of(s).len());
    assert(t.len() == ascii_of(t).len());
    assert forall|i: int| 0 <= i < s.len() implies s[i] == t[i] by {
        assert(ascii_of(s)[i] == s[i] as u8);
        assert(ascii_of(t)[i] == t[i] as u8);
        assert((s[i] as int) < 128);
        assert((t[i] as int) < 128);
    }
    assert(s =~= t);
}

/// Bytes come back from their base64 text in either alphabet: a decoding
/// that succeeds on the text gives the bytes, and the decoding of the
/// text's own alphabet succeeds.
proof fn lemma_b64_decodes(url: bool, b: Seq<u8>)
    ensures
        ({
            let e = vstd::utf8::encode_utf8(b64_text(url, b));
            &&& b64_standard_decoded(e) is Some ==> b64_standard_decoded(e) == Some(b)
            &&& b64_url_decoded(e) is Some ==> b64_url_decoded(e) == Some(b)
            &&& !url ==> b64_standard_decoded(e) == Some(b)
            &&& url ==> b64_url_decoded(e) == Some(b)
        }),
{
    let s = b64_text(url, b);
    lemma_b64_shape(url, b);
    vstd::utf8::is_ascii_chars_encode_utf8(s);
    let e = vstd::utf8::encode_utf8(s);
    assert(e =~= ascii_of(s));
    if url {
        assert(ascii_of(base64_url(b)) == e);
    } else {
        assert(ascii_of(base64_std(b)) == e);
    }
    if b64_standard_decoded(e) is Some {
        let c = choose|c: Seq<u8>| #[trigger] ascii_of(base64_std(c)) == e;
        lemma_b64_shape(false, c);
        lemma_ascii_of_inj(b64_text(false, c), s);
        lemma_b64_inj(false, c, url, b);
    }
    if b64_url_decoded(e) is Some {
        let c = choose|c: Seq<u8>| #[trigger] ascii_of(base64_url(c)) == e;
        lemma_b64_shape(true, c);
        lemma_ascii_of_inj(b64_text(true, c), s);
        lemma_b64_inj(true, c, url, b);
    }
}

/// A `bytes` field reads from a JSON string in padded base64 of either
/// alphabet: the URL-safe text of `b` (with `-` and `_`) gives `b`, as
/// the standard text of `b` does.
pub proof fn law_json_bytes_either_alphabet(pool: PoolInner, b: Seq<u8>, fl: Seq<(String, u32, u64)>)
    ensures
        scalar_of_json(pool, KindRef::Bytes, JsonModel::Str(base64_url(b)), fl) == Some(
            ValueModel::Bytes(b),
        ),
        scalar_of_json(pool, KindRef::Bytes, JsonModel::Str(base64_std(b)), fl) == Some(
            ValueModel::Bytes(b),
        ),
{
    lemma_b64_decodes(true, b);
    lemma_b64_decodes(false, b);
}

// ── lists and maps ──────────────────────────────────────────────────────

proof fn lemma_items_out(st: JsonStyle, pool: PoolInner, k: KindRef, items: Seq<ValueModel>, depth: nat, n: nat)
    requires
        n <= items.len(),
        items_out(st, pool, k, items, depth, n) is Done,
    ensures
        items_out(st, pool, k, items, depth, n)->Done_0.len() == n,
        forall|l: int|
            0 <= l < n ==> value_out(st, pool, k, #[trigger] items[l], depth) == Outcome::Done(
                items_out(st, pool, k, items, depth, n)->Done_0[l],
            ),
    decreases n,
{
    if n > 0 {
        lemma_items_out(st, pool, k, items, depth, (n - 1) as nat);
    }
}

proof fn lemma_de_items(
    pool: PoolInner,
    k: KindRef,
    ys: Seq<JsonModel>,
    deny: bool,
    fl: Seq<(String, u32, u64)>,
    depth: nat,
    acc: Seq<ValueModel>,
    i: int,
    vs: Seq<ValueModel>,
)
    requires
        0 <= i <= ys.len(),
        vs.len() == ys.len(),
        forall|l: int| i <= l < ys.len() ==> de_element(pool, k, #[trigger] ys[l], deny, fl, depth) == Some(vs[l]),
    ensures
        de_items(pool, k, ys, deny, fl, depth, acc, i) == Some(acc + vs.subrange(i, vs.len() as int)),
    decreases ys.len() - i,
{
    if i < ys.len() {
        lemma_de_items(pool, k, ys, deny, fl, depth, acc.push(vs[i]), i + 1, vs);
        assert(acc.push(vs[i]) + vs.subrange(i + 1, vs.len() as int) =~= acc + vs.subrange(i, vs.len() as int));
    } else {
        assert(acc + vs.subrange(i, vs.len() as int) =~= acc);
    }
}

proof fn lemma_entries_out(
    st: JsonStyle,
    pool: PoolInner,
    vk: KindRef,
    es: Seq<(KeyModel, ValueModel)>,
    order: Seq<int>,
    depth: nat,
    n: nat,
)
    requires
        n <= order.len() == es.len(),
        forall|l: int| 0 <= l < order.len() ==> #[trigger] order[l] == l,
        entries_out(st, pool, vk, es, order, depth, n) is Done,
    ensures
        entries_out(st, pool, vk, es, order, depth, n)->Done_0.len() == n,
        forall|l: int|
            0 <= l < n ==> (#[trigger] entries_out(st, pool, vk, es, order, depth, n)->Done_0[l]).0
                == json_key(es[l].0) && value_out(st, pool, vk, es[l].1, depth) == Outcome::Done(
                entries_out(st, pool, vk, es, order, depth, n)->Done_0[l].1,
            ),
    decreases n,
{
    if n > 0 {
        lemma_entries_out(st, pool, vk, es, order, depth, (n - 1) as nat);
        assert(order[n - 1] == n - 1);
    }
}

proof fn lemma_de_entries(
    pool: PoolInner,
    kk: KindRef,
    vk: KindRef,
    ms: Seq<(Seq<char>, JsonModel)>,
    deny: bool,
    fl: Seq<(String, u32, u64)>,
    depth: nat,
    es: Seq<(KeyModel, ValueModel)>,
    i: int,
)
    requires
        0 <= i <= ms.len(),
        ms.len() == es.len(),
        forall|a: int, b: int| 0 <= a < b < es.len() ==> #[trigger] es[a].0 != #[trigger] es[b].0,
        forall|l: int|
            i <= l < ms.len() ==> json_map_key(#[trigger] ms[l].0, kk) == Some(es[l].0) && de_element(
                pool,
                vk,
                ms[l].1,
                deny,
                fl,
                depth,
            ) == Some(es[l].1),
    ensures
        de_entries(pool, kk, vk, ms, deny, fl, depth, es.take(i), i) == Some(es),
    decreases ms.len() - i,
{
    if i < ms.len() {
        let acc = es.take(i);
        assert forall|j: int| 0 <= j < i implies #[trigger] acc[j].0 != es[i].0 by {
            assert(acc[j] == es[j]);
        }
        lemma_key_index(acc, es[i].0, i);
        assert(entries_put(acc, es[i].0, es[i].1) =~= es.take(i + 1));
        assert(ms[i].0 == ms[i].0);
        lemma_de_entries(pool, kk, vk, ms, deny, fl, depth, es, i + 1);
    } else {
        assert(es.take(i) =~= es);
    }
}

/// The JSON key of a map key reads back as the key.
proof fn lemma_key_back(kk: KindRef, key: KeyModel)
    requires
        key_fits(kk, key),
    ensures
        json_map_key(json_key(key), kk) == Some(key),
{
    reveal_strlit("true");
    match key {
        KeyModel::I32(v) => {
            lemma_decimal_back(v as int);
            let p = decimal_of(json_key(key))->0;
            assert(p == (v < 0, (if v < 0 { -(v as int) } else { v as int }) as u64));
            assert(signed_within(p, 0x8000_0000, 0x7fff_ffff) == Some(v as i64));
            assert(json_map_key(json_key(key), kk) == Some(key));
        },
        KeyModel::I64(v) => {
            lemma_decimal_back(v as int);
            let p = decimal_of(json_key(key))->0;
            assert(signed_within(p, 0x8000_0000_0000_0000, 0x7fff_ffff_ffff_ffff) == Some(v));
            assert(json_map_key(json_key(key), kk) == Some(key));
        },
        KeyModel::U32(v) => {
            lemma_decimal_back(v as int);
            assert(json_map_key(json_key(key), kk) == Some(key));
        },
        KeyModel::U64(v) => {
            lemma_decimal_back(v as int);
            assert(json_map_key(json_key(key), kk) == Some(key));
        },
        KeyModel::Bool(b) => {
            if !b {
                assert(bool_text(b)[0] != "true"@[0]);
                assert(bool_text(b) != "true"@);
            } else {
                assert(bool_text(b) =~= "true"@);
            }
            assert(json_map_key(json_key(key), kk) == Some(key));
        },
        _ => {},
    }
}

// ── messages the mapping carries through ───────────────────────────────

/// The member name style `st` writes field `f` under.
pub open spec fn member_key(st: JsonStyle, f: FieldEntry) -> Seq<char> {
    if st.proto_names {
        f.name@
    } else {
        f.json_name@
    }
}

/// A value of kind `k` the JSON mapping carries through: a message ready
/// itself one level down, else a scalar ready as such.
pub open spec fn jvalue_ready(st: JsonStyle, pool: PoolInner, k: KindRef, v: ValueModel, depth: nat) -> bool
    decreases depth, 0nat, 0nat,
{
    match v {
        ValueModel::Message(sub) => kind_fits(pool, k, v) && depth > 0 && jmsg_ready(
            st,
            sub,
            (depth - 1) as nat,
        ),
        _ => scalar_ready(pool, k, v),
    }
}

/// The value `v` of field `f` the JSON mapping carries through: a map
/// with distinct keys of the key kind, held in the order the mapping
/// writes them, and ready values; a list of ready items; or a ready value.
pub open spec fn jfield_ready(st: JsonStyle, pool: PoolInner, f: FieldEntry, v: ValueModel, depth: nat) -> bool
    decreases depth, 1nat, 0nat,
{
    if field_is_map(pool, f) {
        match (v, map_kinds(pool, f)) {
            (ValueModel::Mapping(es), Some((kk, vk))) => {
                &&& forall|a: int, b: int|
                    0 <= a < b < es.len() ==> #[trigger] es[a].0 != #[trigger] es[b].0
                &&& key_order(keys_of(es), es.len()) == Seq::new(es.len(), |l: int| l)
                &&& forall|l: int|
                    0 <= l < es.len() ==> key_fits(kk, #[trigger] es[l].0) && jvalue_ready(
                        st,
                        pool,
                        vk,
                        es[l].1,
                        depth,
                    )
            },
            _ => false,
        }
    } else if f.cardinality == Cardinality::Repeated {
        match v {
            ValueModel::List(items) => forall|l: int|
                0 <= l < items.len() ==> jvalue_ready(st, pool, f.kind, #[trigger] items[l], depth),
            _ => false,
        }
    } else {
        jvalue_ready(st, pool, f.kind, v, depth)
    }
}

/// A slot of `m` the JSON mapping carries through: the set value of a
/// declared field, ready as a value of that field.
pub open spec fn jslot_ready(st: JsonStyle, m: MessageModel, s: (u32, SlotModel), depth: nat) -> bool
    decreases depth, 1nat, 1nat,
{
    match s.1 {
        SlotModel::Value(v) => match entry_by_number(fields_of(m.pool, m.index), s.0) {
            Some(f) => field_set(m, f) && jfield_ready(st, m.pool, f, v, depth),
            None => false,
        },
        SlotModel::Unknown(_) => false,
    }
}

/// A message the JSON mapping carries through: not a well-known type;
/// slots sorted by number, no two members of one oneof stored; each
/// field's member name selects that field when read; every slot ready.
pub open spec fn jmsg_ready(st: JsonStyle, m: MessageModel, depth: nat) -> bool
    decreases depth, 2nat, 0nat,
{
    &&& m.index < m.pool.messages@.len()
    &&& !wkt_names().contains(full_name_of(m))
    &&& numbers_sorted(m.slots)
    &&& no_sibling_slots(m)
    &&& forall|i: int|
        0 <= i < fields_of(m.pool, m.index).len() ==> member_field(
            m.pool,
            m.index,
            member_key(st, #[trigger] fields_of(m.pool, m.index)[i]),
        ) == Some(fields_of(m.pool, m.index)[i])
    &&& forall|i: int| 0 <= i < m.slots.len() ==> jslot_ready(st, m, #[trigger] m.slots[i], depth)
}

/// The stored fields of `m` among its first `n` declared fields.
pub open spec fn fields_taken(m: MessageModel, n: int) -> Map<u32, SlotModel> {
    Map::new(
        |x: u32|
            slot_get(m.slots, x) is Some && exists|l: int|
                0 <= l < n && #[trigger] fields_of(m.pool, m.index)[l].number == x,
        |x: u32| slot_get(m.slots, x)->0,
    )
}

/// With slots sorted, what is stored for a number is the slot holding it.
proof fn lemma_stored(m: MessageModel, x: u32)
    requires
        numbers_sorted(m.slots),
    ensures
        stored_value(m, x) == (match slot_get(m.slots, x) {
            Some(SlotModel::Value(v)) => Some(v),
            _ => None,
        }),
        slot_get(m.slots, x) is Some ==> exists|i: int|
            0 <= i < m.slots.len() && #[trigger] m.slots[i].0 == x && slot_get(m.slots, x) == Some(
                m.slots[i].1,
            ),
{
    lemma_slot_index(m.slots, x);
    lemma_slot_get_index(m.slots, x);
}

proof fn lemma_members_prefix(st: JsonStyle, m: MessageModel, depth: nat, n: nat, k: nat)
    requires
        k <= n <= fields_of(m.pool, m.index).len(),
        members_out(st, m, depth, n) is Done,
    ensures
        members_out(st, m, depth, k) is Done,
        members_out(st, m, depth, n)->Done_0.len() >= members_out(st, m, depth, k)->Done_0.len(),
        members_out(st, m, depth, n)->Done_0.take(members_out(st, m, depth, k)->Done_0.len() as int)
            == members_out(st, m, depth, k)->Done_0,
    decreases n - k,
{
    let a = members_out(st, m, depth, n)->Done_0;
    if k == n {
        assert(a.take(a.len() as int) =~= a);
    } else {
        lemma_members_prefix(st, m, depth, (n - 1) as nat, k);
        let b = members_out(st, m, depth, (n - 1) as nat)->Done_0;
        let c = members_out(st, m, depth, k)->Done_0;
        assert(a.take(b.len() as int) =~= b);
        assert(a.take(c.len() as int) =~= b.take(c.len() as int));
    }
}

/// Reading back the JSON of a ready value gives the value.
proof fn lemma_value_back(
    st: JsonStyle,
    pool: PoolInner,
    k: KindRef,
    v: ValueModel,
    depth: nat,
    j2: JsonModel,
    deny: bool,
    fl: Seq<(String, u32, u64)>,
)
    requires
        pool.wf(),
        enum_names_apart(pool),
        st.skip_defaults,
        jvalue_ready(st, pool, k, v, depth),
        value_out(st, pool, k, v, depth) is Done,
        reread(value_out(st, pool, k, v, depth)->Done_0, j2),
    ensures
        de_element(pool, k, j2, deny, fl, depth) == Some(v),
    decreases depth, 0nat, 0nat,
{
    match v {
        ValueModel::Message(sub) => {
            let i = k->Message_0;
            lemma_msg_back(st, sub, (depth - 1) as nat, j2, deny, fl);
            lemma_sorted_slots(sub.slots);
            assert(message_from(pool, i, slot_view(sub.slots)) == sub);
        },
        _ => {
            lemma_scalar_back(pool, st, k, v, j2, fl);
        },
    }
}

/// Reading back the JSON of a ready field value gives the value.
#[verifier::rlimit(50)]
proof fn lemma_field_back(
    st: JsonStyle,
    pool: PoolInner,
    f: FieldEntry,
    v: ValueModel,
    depth: nat,
    j2: JsonModel,
    deny: bool,
    fl: Seq<(String, u32, u64)>,
)
    requires
        pool.wf(),
        enum_names_apart(pool),
        st.skip_defaults,
        jfield_ready(st, pool, f, v, depth),
        field_out(st, pool, f, v, depth) is Done,
        reread(field_out(st, pool, f, v, depth)->Done_0, j2),
    ensures
        de_field(pool, f, j2, deny, fl, depth) == Some(v),
    decreases depth, 1nat, 0nat,
{
    reveal_with_fuel(reread, 2);
    if field_is_map(pool, f) {
        let es = v->Mapping_0;
        let (kk, vk) = map_kinds(pool, f)->0;
        let order = key_order(keys_of(es), es.len());
        assert forall|l: int| 0 <= l < order.len() implies #[trigger] order[l] == l by {}
        lemma_entries_out(st, pool, vk, es, order, depth, es.len());
        let ms = entries_out(st, pool, vk, es, order, depth, es.len())->Done_0;
        let ms2 = j2->Object_0;
        assert forall|l: int|
            0 <= l < ms2.len() implies json_map_key(#[trigger] ms2[l].0, kk) == Some(es[l].0) && de_element(
            pool,
            vk,
            ms2[l].1,
            deny,
            fl,
            depth,
        ) == Some(es[l].1) by {
            assert(ms2[l].0 == ms[l].0);
            assert(reread(ms[l].1, ms2[l].1));
            assert(key_fits(kk, es[l].0) && jvalue_ready(st, pool, vk, es[l].1, depth));
            lemma_key_back(kk, es[l].0);
            lemma_value_back(st, pool, vk, es[l].1, depth, ms2[l].1, deny, fl);
        }
        lemma_de_entries(pool, kk, vk, ms2, deny, fl, depth, es, 0);
        assert(es.take(0) =~= Seq::<(KeyModel, ValueModel)>::empty());
    } else if f.cardinality == Cardinality::Repeated {
        let items = v->List_0;
        lemma_items_out(st, pool, f.kind, items, depth, items.len());
        let js = items_out(st, pool, f.kind, items, depth, items.len())->Done_0;
        let ys = j2->Array_0;
        assert forall|l: int| 0 <= l < ys.len() implies de_element(pool, f.kind, #[trigger] ys[l], deny, fl, depth)
            == Some(items[l]) by {
            assert(reread(js[l], ys[l]));
            assert(jvalue_ready(st, pool, f.kind, items[l], depth));
            lemma_value_back(st, pool, f.kind, items[l], depth, ys[l], deny, fl);
        }
        lemma_de_items(pool, f.kind, ys, deny, fl, depth, seq![], 0, items);
        assert(Seq::<ValueModel>::empty() + items.subrange(0, items.len() as int) =~= items);
    } else {
        lemma_value_back(st, pool, f.kind, v, depth, j2, deny, fl);
    }
}

/// Reading the members of a ready message, from the member that follows
/// its first `n` declared fields on, ends with all its stored fields.
proof fn lemma_plain_step(
    st: JsonStyle,
    m: MessageModel,
    depth: nat,
    ms: Seq<(Seq<char>, JsonModel)>,
    ms2: Seq<(Seq<char>, JsonModel)>,
    deny: bool,
    fl: Seq<(String, u32, u64)>,
    n: nat,
)
    requires
        m.pool.wf(),
        enum_names_apart(m.pool),
        st.skip_defaults,
        jmsg_ready(st, m, depth),
        n <= fields_of(m.pool, m.index).len(),
        members_out(st, m, depth, fields_of(m.pool, m.index).len()) == Outcome::Done(ms),
        ms2.len() == ms.len(),
        forall|l: int| 0 <= l < ms.len() ==> (#[trigger] ms2[l]).0 == ms[l].0 && reread(ms[l].1, ms2[l].1),
    ensures
        de_plain(
            m.pool,
            m.index,
            ms2,
            deny,
            fl,
            depth,
            fields_taken(m, n as int),
            members_out(st, m, depth, n)->Done_0.len() as int,
        ) == Some(fields_taken(m, fields_of(m.pool, m.index).len() as int)),
    decreases depth, 2nat, fields_of(m.pool, m.index).len() - n,
{
    let fs = fields_of(m.pool, m.index);
    let nf = fs.len();
    lemma_members_prefix(st, m, depth, nf, n);
    let c = members_out(st, m, depth, n)->Done_0.len();
    if n == nf {
        assert(c == ms2.len());
    } else {
        lemma_members_prefix(st, m, depth, nf, n + 1);
        let f = fs[n as int];
        let pool = m.pool;
        assert(m.pool.messages@[m.index as int].wf_in(
            m.pool.files@.len(),
            m.pool.messages@.len(),
            m.pool.enums@.len(),
        ));
        lemma_stored(m, f.number);
        lemma_entry_by_number(fs, f.number);
        if field_set(m, f) {
            let v = field_value(m, f);
            let si = choose|i: int|
                0 <= i < m.slots.len() && #[trigger] m.slots[i].0 == f.number && slot_get(m.slots, f.number)
                    == Some(m.slots[i].1);
            assert(jslot_ready(st, m, m.slots[si], depth));
            assert(entry_by_number(fs, f.number) == Some(f));
            assert(jfield_ready(st, pool, f, v, depth));
            let a = members_out(st, m, depth, (n + 1) as nat)->Done_0;
            assert(a == members_out(st, m, depth, n)->Done_0.push(a[c as int]));
            assert(ms[c as int] == a[c as int]);
            assert(ms[c as int].0 == member_key(st, f));
            assert(member_field(pool, m.index, ms2[c as int].0) == Some(f));
            lemma_field_back(st, pool, f, v, depth, ms2[c as int].1, deny, fl);
            let t = fields_taken(m, n as int);
            let t1 = fields_taken(m, (n + 1) as int);
            assert(set_map(pool, m.index, f, t, v) =~= t1) by {
                assert forall|x: u32| #[trigger] t.contains_key(x) implies !is_sibling(pool, m.index, f, x) by {
                    let l = choose|l: int| 0 <= l < n && #[trigger] fs[l].number == x;
                    assert(fs[l].number != fs[n as int].number);
                    lemma_stored(m, x);
                    let sj = choose|i: int|
                        0 <= i < m.slots.len() && #[trigger] m.slots[i].0 == x && slot_get(m.slots, x) == Some(
                            m.slots[i].1,
                        );
                    assert(m.slots[si].1 is Value);
                    assert(si != sj);
                }
                assert forall|x: u32| #[trigger] t1.contains_key(x) && x != f.number implies t.contains_key(x) by {
                    let l = choose|l: int| 0 <= l < n + 1 && #[trigger] fs[l].number == x;
                    assert(l != n);
                }
            }
            lemma_plain_step(st, m, depth, ms, ms2, deny, fl, n + 1);
        } else {
            assert(slot_get(m.slots, f.number) is None) by {
                if slot_get(m.slots, f.number) is Some {
                    let si = choose|i: int|
                        0 <= i < m.slots.len() && #[trigger] m.slots[i].0 == f.number && slot_get(m.slots, f.number)
                            == Some(m.slots[i].1);
                    assert(jslot_ready(st, m, m.slots[si], depth));
                    assert(entry_by_number(fs, f.number) == Some(f));
                }
            }
            assert(fields_taken(m, n as int) =~= fields_taken(m, (n + 1) as int)) by {
                assert forall|x: u32| #[trigger] fields_taken(m, (n + 1) as int).contains_key(x) implies fields_taken(
                    m,
                    n as int,
                ).contains_key(x) by {
                    let l = choose|l: int| 0 <= l < n + 1 && #[trigger] fs[l].number == x;
                    assert(l != n);
                }
            }
            lemma_plain_step(st, m, depth, ms, ms2, deny, fl, n + 1);
        }
    }
}

/// Reading back the JSON of a ready message gives its stored fields.
proof fn lemma_msg_back(
    st: JsonStyle,
    m: MessageModel,
    depth: nat,
    j2: JsonModel,
    deny: bool,
    fl: Seq<(String, u32, u64)>,
)
    requires
        m.pool.wf(),
        enum_names_apart(m.pool),
        st.skip_defaults,
        jmsg_ready(st, m, depth),
        msg_out(st, m, depth) is Done,
        reread(msg_out(st, m, depth)->Done_0, j2),
    ensures
        de_message(m.pool, m.index, j2, deny, fl, depth) == Some(slot_view(m.slots)),
    decreases depth, 3nat, 0nat,
{
    reveal_with_fuel(reread, 2);
    let fs = fields_of(m.pool, m.index);
    let ms = members_out(st, m, depth, fs.len())->Done_0;
    assert(msg_out(st, m, depth) == as_object(members_out(st, m, depth, fs.len())));
    assert(reread(JsonModel::Object(ms), j2));
    let ms2 = j2->Object_0;
    assert forall|l: int| 0 <= l < ms.len() implies (#[trigger] ms2[l]).0 == ms[l].0 && reread(ms[l].1, ms2[l].1) by {
        assert(reread(ms[l].1, ms2[l].1));
    }
    assert(fields_taken(m, 0) =~= Map::<u32, SlotModel>::empty());
    assert(members_out(st, m, depth, 0) == Outcome::Done(Seq::<(Seq<char>, JsonModel)>::empty()));
    lemma_plain_step(st, m, depth, ms, ms2, deny, fl, 0);
    assert(fields_taken(m, fs.len() as int) =~= slot_view(m.slots)) by {
        assert forall|x: u32| #[trigger] slot_view(m.slots).contains_key(x) implies fields_taken(
            m,
            fs.len() as int,
        ).contains_key(x) by {
            lemma_stored(m, x);
            let si = choose|i: int|
                0 <= i < m.slots.len() && #[trigger] m.slots[i].0 == x && slot_get(m.slots, x) == Some(
                    m.slots[i].1,
                );
            assert(jslot_ready(st, m, m.slots[si], depth));
            lemma_entry_by_number(fs, x);
        }
    }
}

/// Reading back what the JSON mapping writes gives the message back. For
/// a message of a well-formed pool whose enums keep their value names
/// apart, written with default-valued fields left out, that the mapping
/// carries through (see [`jmsg_ready`]: no well-known types, no NaN,
/// set fields only, maps held in the order they are written, member
/// names that select their fields), the JSON text of what
/// [`msg_out`] writes, read back (see [`reread`]), reads under
/// [`de_message`] as exactly the message's stored fields, whatever the
/// unknown-member setting and float literal table, and those fields make
/// up the message again.
pub proof fn law_json_roundtrip(
    st: JsonStyle,
    m: MessageModel,
    depth: nat,
    j2: JsonModel,
    deny: bool,
    fl: Seq<(String, u32, u64)>,
)
    requires
        m.pool.wf(),
        enum_names_apart(m.pool),
        st.skip_defaults,
        jmsg_ready(st, m, depth),
        msg_out(st, m, depth) is Done,
        reread(msg_out(st, m, depth)->Done_0, j2),
    ensures
        de_message(m.pool, m.index, j2, deny, fl, depth) == Some(slot_view(m.slots)),
        message_from(m.pool, m.index, slot_view(m.slots)) == m,
{
    lemma_msg_back(st, m, depth, j2, deny, fl);
    lemma_sorted_slots(m.slots);
}

} // verus!
