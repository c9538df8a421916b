//! Proto3 JSON mapping of dynamic messages, over a plain JSON data model.
//!
//! Field values map as the proto3 JSON rules say: 64-bit integers as
//! strings (by default), bytes as standard base64, enum values by name,
//! non-finite floats as `"NaN"`, `"Infinity"`, `"-Infinity"`, and the
//! well-known types (`Timestamp`, `Duration`, `FieldMask`, `Struct`,
//! `ListValue`, `Value`, `Any`, the scalar wrappers, `Empty`) by their own
//! mappings. Floating-point numbers are carried as bit patterns.

use vstd::prelude::*;
use base64::Engine as _;

use crate::case::{is_well_known_type, snake_to_lower_camel, wkt_names};
use crate::handles::{FieldDescriptor, MessageDescriptor};
use crate::message::{
    default_for, field_is_map, fields_of, is_zero, map_kinds, DynamicMessage, MessageModel, Slot,
    SlotModel,
};
use crate::case::spec_lower_camel;
use crate::options::{DeserializeOptions, SerializeOptions};
use crate::textparse::FloatLiterals;
use crate::decode::{spec_decode, RECURSION_LIMIT};
use crate::pool::{
    kind_ok, table_get, Cardinality, Definition, DescriptorPool, EnumValueEntry,
    FieldEntry, KindRef, PoolInner,
};
use crate::text::{push_decimal, push_decimal_i64, spec_decimal, spec_decimal_int, spec_strip_dot};
use crate::textfmt::{bool_text, enum_name_of, key_order, keys_of, slot_index};
use crate::value::{entry_models, lemma_entry_models_len, KeyModel, MapKey, Value, ValueModel};

verus! {

/// A JSON value. Integers keep their sign class (`Uint` for values read or
/// written as unsigned, `Int` for signed); floating-point numbers are held
/// as the bits of an `f32` or `f64`.
pub enum Json {
    Null,
    Bool(bool),
    Uint(u64),
    Int(i64),
    Float32(u32),
    Float64(u64),
    Str(String),
    Array(Vec<Json>),
    Object(Vec<(String, Json)>),
    /// A number read from JSON text, with the conversions of it the
    /// mapping may apply.
    Number(JsonNumber),
}

/// What a JSON number is: a non-negative integer, a negative integer, or
/// (written with a fraction or exponent) the bits of an `f64`.
#[derive(Clone, Copy)]
pub enum NumberValue {
    Uint(u64),
    Int(i64),
    Float(u64),
}

/// A JSON number as read, with its value converted by Rust's `as` to each
/// numeric type a field may hold (floats as bit patterns).
#[derive(Clone, Copy)]
pub struct JsonNumber {
    pub value: NumberValue,
    pub as_f32: u32,
    pub as_f64: u64,
    pub as_i32: i32,
    pub as_i64: i64,
    pub as_u32: u32,
    pub as_u64: u64,
}

/// Mathematical model of a [`Json`] value.
pub enum JsonModel {
    Null,
    Bool(bool),
    Uint(u64),
    Int(i64),
    Float32(u32),
    Float64(u64),
    Str(Seq<char>),
    Array(Seq<JsonModel>),
    Object(Seq<(Seq<char>, JsonModel)>),
    Number(JsonNumber),
}

impl Json {
    pub open spec fn model(&self) -> JsonModel
        decreases self,
    {
        match self {
            Json::Null => JsonModel::Null,
            Json::Bool(b) => JsonModel::Bool(*b),
            Json::Uint(v) => JsonModel::Uint(*v),
            Json::Int(v) => JsonModel::Int(*v),
            Json::Float32(b) => JsonModel::Float32(*b),
            Json::Float64(b) => JsonModel::Float64(*b),
            Json::Str(s) => JsonModel::Str(s@),
            Json::Array(items) => JsonModel::Array(json_models(items@)),
            Json::Object(es) => JsonModel::Object(json_entry_models(es@)),
            Json::Number(n) => JsonModel::Number(*n),
        }
    }
}

pub open spec fn json_models(s: Seq<Json>) -> Seq<JsonModel>
    decreases s,
{
    if s.len() == 0 {
        seq![]
    } else {
        seq![s[0].model()] + json_models(s.subrange(1, s.len() as int))
    }
}

pub open spec fn json_entry_models(s: Seq<(String, Json)>) -> Seq<(Seq<char>, JsonModel)>
    decreases s,
{
    if s.len() == 0 {
        seq![]
    } else {
        seq![(s[0].0@, s[0].1.model())] + json_entry_models(s.subrange(1, s.len() as int))
    }
}

// ── base64 ──────────────────────────────────────────────────────────────

/// The standard base64 alphabet.
pub open spec fn b64_digit(v: int) -> char {
    if v < 26 {
        (('A' as int) + v) as char
    } else if v < 52 {
        (('a' as int) + v - 26) as char
    } else if v < 62 {
        (('0' as int) + v - 52) as char
    } else if v == 62 {
        '+'
    } else {
        '/'
    }
}

/// Standard base64 with `=` padding: each three bytes become four digits.
pub open spec fn base64_std(b: Seq<u8>) -> Seq<char>
    decreases b.len(),
{
    if b.len() == 0 {
        seq![]
    } else {
        let b0 = b[0] as int;
        let b1 = if b.len() > 1 { b[1] as int } else { 0 };
        let b2 = if b.len() > 2 { b[2] as int } else { 0 };
        if b.len() == 1 {
            seq![b64_digit(b0 / 4), b64_digit((b0 % 4) * 16), '=', '=']
        } else if b.len() == 2 {
            seq![b64_digit(b0 / 4), b64_digit((b0 % 4) * 16 + b1 / 16), b64_digit((b1 % 16) * 4), '=']
        } else {
            seq![
                b64_digit(b0 / 4),
                b64_digit((b0 % 4) * 16 + b1 / 16),
                b64_digit((b1 % 16) * 4 + b2 / 64),
                b64_digit(b2 % 64),
            ] + base64_std(b.skip(3))
        }
    }
}

/// `base64::engine::general_purpose::STANDARD.encode`: standard alphabet,
/// padded.
#[verifier::external_body]
fn base64_encode(b: &[u8]) -> (r: String)
    ensures
        r@ == base64_std(b@),
{
    base64::engine::general_purpose::STANDARD.encode(b)
}

// ── timestamps and durations ────────────────────────────────────────────

/// What `chrono` renders a UTC timestamp of `seconds` and `nanos` as
/// (RFC 3339, `Z` suffix, fraction as needed), or `None` when it is out of
/// range.
pub uninterp spec fn rfc3339_text(seconds: i64, nanos: u32) -> Option<Seq<char>>;

/// `DateTime::<Utc>::from_timestamp(seconds, nanos)` rendered with
/// `to_rfc3339_opts(SecondsFormat::AutoSi, true)`.
#[verifier::external_body]
fn rfc3339(seconds: i64, nanos: u32) -> (r: Option<String>)
    ensures
        match r {
            Some(s) => rfc3339_text(seconds, nanos) == Some(s@),
            None => rfc3339_text(seconds, nanos) is None,
        },
{
    chrono::DateTime::<chrono::Utc>::from_timestamp(seconds, nanos).map(
        |d| d.to_rfc3339_opts(chrono::SecondsFormat::AutoSi, true),
    )
}

/// The decimal digits of `n`, zero-padded on the left to at least nine.
pub open spec fn nine_digits(n: nat) -> Seq<char> {
    let d = spec_decimal(n);
    if d.len() >= 9 {
        d
    } else {
        Seq::new((9 - d.len()) as nat, |i: int| '0') + d
    }
}

/// `s` without its trailing `0`s.
pub open spec fn trim_zeros(s: Seq<char>) -> Seq<char>
    decreases s.len(),
{
    if s.len() > 0 && s.last() == '0' {
        trim_zeros(s.drop_last())
    } else {
        s
    }
}

/// The JSON text of a `Duration`: whole seconds and `s`, or, with nanos,
/// a sign, the magnitude of the seconds, the fraction without trailing
/// zeros, and `s`.
pub open spec fn duration_text(seconds: i64, nanos: i32) -> Seq<char> {
    if nanos == 0 {
        spec_decimal_int(seconds as int) + seq!['s']
    } else {
        let neg = seconds < 0 || nanos < 0;
        let abs_s: nat = if seconds < 0 {
            (-seconds) as nat
        } else {
            seconds as nat
        };
        let abs_n: nat = if nanos < 0 {
            (-nanos) as nat
        } else {
            nanos as nat
        };
        let frac = trim_zeros(nine_digits(abs_n));
        (if neg {
            seq!['-']
        } else {
            seq![]
        }) + spec_decimal(abs_s) + (if frac.len() > 0 {
            seq!['.'] + frac
        } else {
            seq![]
        }) + seq!['s']
    }
}


fn magnitude(v: i64) -> (r: u64)
    ensures
        r as int == if v < 0 { -v } else { v as int },
{
    if v >= 0 {
        v as u64
    } else if v == i64::MIN {
        0x8000_0000_0000_0000u64
    } else {
        (-v) as u64
    }
}

/// The digits of `n`, zero-padded on the left to at least nine.
fn nine_digit_chars(n: u64) -> (r: Vec<char>)
    ensures
        r@ == nine_digits(n as nat),
{
    let mut digits = String::new();
    push_decimal(&mut digits, n);
    let dc = crate::text::chars_of(digits.as_str());
    let mut padded: Vec<char> = Vec::new();
    let need: usize = if dc.len() < 9 {
        9 - dc.len()
    } else {
        0
    };
    let mut z: usize = 0;
    while z < need
        invariant
            z <= need,
            padded@ == Seq::new(z as nat, |i: int| '0'),
        decreases need - z,
    {
        padded.push('0');
        z = z + 1;
        assert(padded@ =~= Seq::new(z as nat, |i: int| '0'));
    }
    let ghost pad = padded@;
    let mut i: usize = 0;
    while i < dc.len()
        invariant
            i <= dc@.len(),
            padded@ == pad + dc@.take(i as int),
        decreases dc@.len() - i,
    {
        padded.push(dc[i]);
        i = i + 1;
        assert(padded@ =~= pad + dc@.take(i as int));
    }
    assert(dc@.take(dc@.len() as int) =~= dc@);
    assert(padded@ =~= nine_digits(n as nat)) by {
        if dc@.len() >= 9 {
            assert(pad =~= Seq::<char>::empty());
        }
    }
    padded
}

/// Length of `v` without its trailing `0`s.
fn trimmed_len(v: &Vec<char>) -> (n: usize)
    ensures
        n <= v@.len(),
        trim_zeros(v@) == v@.take(n as int),
{
    let mut n = v.len();
    assert(v@.take(n as int) =~= v@);
    while n > 0 && v[n - 1] == '0'
        invariant
            n <= v@.len(),
            trim_zeros(v@) == trim_zeros(v@.take(n as int)),
        decreases n,
    {
        assert(v@.take(n as int).drop_last() =~= v@.take(n - 1));
        n = n - 1;
    }
    n
}

/// The JSON text of a `Duration` (see [`duration_text`]).
pub fn duration_string(seconds: i64, nanos: i32) -> (r: String)
    ensures
        r@ == duration_text(seconds, nanos),
{
    let mut out = String::new();
    if nanos == 0 {
        push_decimal_i64(&mut out, seconds);
        out.push('s');
        return out;
    }
    if seconds < 0 || nanos < 0 {
        out.push('-');
    }
    push_decimal(&mut out, magnitude(seconds));
    let padded = nine_digit_chars(magnitude(nanos as i64));
    let n = trimmed_len(&padded);
    let ghost frac = padded@.take(n as int);
    if n > 0 {
        out.push('.');
        let mut j: usize = 0;
        let ghost base = out@;
        while j < n
            invariant
                j <= n <= padded@.len(),
                out@ == base + padded@.take(j as int),
            decreases n - j,
        {
            out.push(padded[j]);
            j = j + 1;
            assert(out@ =~= base + padded@.take(j as int));
        }
    }
    out.push('s');
    assert(out@ =~= duration_text(seconds, nanos));
    out
}

// ── scalar values ───────────────────────────────────────────────────────

/// `b` is the bits of an `f32` NaN.
pub open spec fn nan32(b: u32) -> bool {
    (b / 0x80_0000) % 256 == 255 && b % 0x80_0000 != 0
}

/// `b` is the bits of an `f64` NaN.
pub open spec fn nan64(b: u64) -> bool {
    (b / 0x10_0000_0000_0000) % 2048 == 2047 && b % 0x10_0000_0000_0000 != 0
}

/// How an `f32` prints: non-finite values as strings.
pub open spec fn json_f32(b: u32) -> JsonModel {
    if nan32(b) {
        JsonModel::Str("NaN"@)
    } else if b == 0x7f80_0000 {
        JsonModel::Str("Infinity"@)
    } else if b == 0xff80_0000 {
        JsonModel::Str("-Infinity"@)
    } else {
        JsonModel::Float32(b)
    }
}

/// How an `f64` prints: non-finite values as strings.
pub open spec fn json_f64(b: u64) -> JsonModel {
    if nan64(b) {
        JsonModel::Str("NaN"@)
    } else if b == 0x7ff0_0000_0000_0000 {
        JsonModel::Str("Infinity"@)
    } else if b == 0xfff0_0000_0000_0000 {
        JsonModel::Str("-Infinity"@)
    } else {
        JsonModel::Float64(b)
    }
}

/// The settings the JSON mapping reads.
pub struct JsonStyle {
    pub stringify_64: bool,
    pub enum_numbers: bool,
    pub proto_names: bool,
    pub skip_defaults: bool,
}

pub open spec fn json_style(o: SerializeOptions) -> JsonStyle {
    JsonStyle {
        stringify_64: o.stringify_64_bit_integers_flag(),
        enum_numbers: o.use_enum_numbers_flag(),
        proto_names: o.use_proto_field_name_flag(),
        skip_defaults: o.skip_default_fields_flag(),
    }
}

/// The JSON a value of scalar or enum kind `k` maps to; `None` for
/// messages and for values not of kind `k`.
pub open spec fn json_scalar(pool: PoolInner, st: JsonStyle, k: KindRef, v: ValueModel) -> Option<JsonModel> {
    match (k, v) {
        (KindRef::Bool, ValueModel::Bool(b)) => Some(JsonModel::Bool(b)),
        (KindRef::Int32, ValueModel::I32(x)) => Some(JsonModel::Int(x as i64)),
        (KindRef::Sint32, ValueModel::I32(x)) => Some(JsonModel::Int(x as i64)),
        (KindRef::Sfixed32, ValueModel::I32(x)) => Some(JsonModel::Int(x as i64)),
        (KindRef::Uint32, ValueModel::U32(x)) => Some(JsonModel::Uint(x as u64)),
        (KindRef::Fixed32, ValueModel::U32(x)) => Some(JsonModel::Uint(x as u64)),
        (KindRef::Int64, ValueModel::I64(x)) | (KindRef::Sint64, ValueModel::I64(x)) | (
            KindRef::Sfixed64,
            ValueModel::I64(x),
        ) => if st.stringify_64 {
            Some(JsonModel::Str(spec_decimal_int(x as int)))
        } else {
            Some(JsonModel::Int(x))
        },
        (KindRef::Uint64, ValueModel::U64(x)) | (KindRef::Fixed64, ValueModel::U64(x)) => if st.stringify_64 {
            Some(JsonModel::Str(spec_decimal(x as nat)))
        } else {
            Some(JsonModel::Uint(x))
        },
        (KindRef::Float, ValueModel::F32(b)) => Some(json_f32(b)),
        (KindRef::Double, ValueModel::F64(b)) => Some(json_f64(b)),
        (KindRef::String, ValueModel::Str(s)) => Some(JsonModel::Str(s)),
        (KindRef::Bytes, ValueModel::Bytes(b)) => Some(JsonModel::Str(base64_std(b))),
        (KindRef::Enum(e), ValueModel::EnumNumber(n)) => if st.enum_numbers {
            Some(JsonModel::Int(n as i64))
        } else {
            match enum_name_of(pool.enums@[e as int].values@, n) {
                Some(name) => Some(JsonModel::Str(name)),
                None => Some(JsonModel::Int(n as i64)),
            }
        },
        _ => None,
    }
}

fn text(s: &str) -> (r: Json)
    ensures
        r.model() == JsonModel::Str(s@),
{
    Json::Str(s.to_owned())
}

fn float32_json(b: u32) -> (r: Json)
    ensures
        r.model() == json_f32(b),
{
    if (b / 0x80_0000) % 256 == 255 && b % 0x80_0000 != 0 {
        text("NaN")
    } else if b == 0x7f80_0000 {
        text("Infinity")
    } else if b == 0xff80_0000 {
        text("-Infinity")
    } else {
        Json::Float32(b)
    }
}

fn float64_json(b: u64) -> (r: Json)
    ensures
        r.model() == json_f64(b),
{
    if (b / 0x10_0000_0000_0000) % 2048 == 2047 && b % 0x10_0000_0000_0000 != 0 {
        text("NaN")
    } else if b == 0x7ff0_0000_0000_0000 {
        text("Infinity")
    } else if b == 0xfff0_0000_0000_0000 {
        text("-Infinity")
    } else {
        Json::Float64(b)
    }
}

/// The JSON of a scalar or enum value (see [`json_scalar`]).
fn scalar_json(pool: &DescriptorPool, o: &SerializeOptions, k: KindRef, v: &Value) -> (r: Option<Json>)
    requires
        kind_ok(k, pool.view_inner().messages@.len(), pool.view_inner().enums@.len()),
    ensures
        match json_scalar(pool.view_inner(), json_style(*o), k, v.model()) {
            Some(j) => r is Some && r->0.model() == j,
            None => r is None,
        },
{
    match (k, v) {
        (KindRef::Bool, Value::Bool(b)) => Some(Json::Bool(*b)),
        (KindRef::Int32, Value::I32(x)) | (KindRef::Sint32, Value::I32(x)) | (KindRef::Sfixed32, Value::I32(x)) => Some(Json::Int(*x as i64)),
        (KindRef::Uint32, Value::U32(x)) | (KindRef::Fixed32, Value::U32(x)) => Some(Json::Uint(*x as u64)),
        (KindRef::Int64, Value::I64(x)) | (KindRef::Sint64, Value::I64(x)) | (KindRef::Sfixed64, Value::I64(x)) => {
            if o.stringifies_64() {
                let mut s = String::new();
                push_decimal_i64(&mut s, *x);
                Some(Json::Str(s))
            } else {
                Some(Json::Int(*x))
            }
        },
        (KindRef::Uint64, Value::U64(x)) | (KindRef::Fixed64, Value::U64(x)) => {
            if o.stringifies_64() {
                let mut s = String::new();
                push_decimal(&mut s, *x);
                Some(Json::Str(s))
            } else {
                Some(Json::Uint(*x))
            }
        },
        (KindRef::Float, Value::F32(b)) => Some(float32_json(*b)),
        (KindRef::Double, Value::F64(b)) => Some(float64_json(*b)),
        (KindRef::String, Value::String(s)) => Some(Json::Str(s.clone())),
        (KindRef::Bytes, Value::Bytes(b)) => Some(Json::Str(base64_encode(b.as_slice()))),
        (KindRef::Enum(e), Value::EnumNumber(n)) => {
            if o.enum_numbers() {
                return Some(Json::Int(*n as i64));
            }
            let inner = pool.inner_ref();
            match crate::textfmt::enum_name_pub(&inner.enums[e as usize].values, *n) {
                Some(name) => Some(Json::Str(name.clone())),
                None => Some(Json::Int(*n as i64)),
            }
        },
        _ => None,
    }
}


// ── messages ────────────────────────────────────────────────────────────

/// The full name of a message's type.
pub open spec fn full_name_of(m: MessageModel) -> Seq<char> {
    m.pool.messages@[m.index as int].full_name@
}

/// What serialization comes to: a JSON value, or a failure.
pub enum Outcome<T> {
    Done(T),
    Failed,
}

/// Append the outcome of one more item: a failure anywhere fails the
/// whole.
pub open spec fn then_push<T>(a: Outcome<Seq<T>>, b: Outcome<T>) -> Outcome<Seq<T>> {
    match (a, b) {
        (Outcome::Done(s), Outcome::Done(x)) => Outcome::Done(s.push(x)),
        _ => Outcome::Failed,
    }
}

/// Pair the outcome of a member's value with its key.
pub open spec fn keyed(key: Seq<char>, o: Outcome<JsonModel>) -> Outcome<(Seq<char>, JsonModel)> {
    match o {
        Outcome::Done(j) => Outcome::Done((key, j)),
        Outcome::Failed => Outcome::Failed,
    }
}

pub open spec fn as_array(o: Outcome<Seq<JsonModel>>) -> Outcome<JsonModel> {
    match o {
        Outcome::Done(s) => Outcome::Done(JsonModel::Array(s)),
        Outcome::Failed => Outcome::Failed,
    }
}

pub open spec fn as_object(o: Outcome<Seq<(Seq<char>, JsonModel)>>) -> Outcome<JsonModel> {
    match o {
        Outcome::Done(s) => Outcome::Done(JsonModel::Object(s)),
        Outcome::Failed => Outcome::Failed,
    }
}

/// `r` is the result outcome `o` describes.
pub open spec fn outcome_ok(r: Result<Json, String>, o: Outcome<JsonModel>) -> bool {
    match o {
        Outcome::Done(j) => r is Ok && r->Ok_0.model() == j,
        Outcome::Failed => r is Err,
    }
}

/// The value stored for field number `n` of `m`, if any.
pub open spec fn stored_value(m: MessageModel, n: u32) -> Option<ValueModel> {
    let i = slot_index(m.slots, n);
    if 0 <= i < m.slots.len() {
        match m.slots[i].1 {
            SlotModel::Value(v) => Some(v),
            SlotModel::Unknown(_) => None,
        }
    } else {
        None
    }
}

/// What field `f` of `m` reads as: its stored value, else its default.
pub open spec fn field_value(m: MessageModel, f: FieldEntry) -> ValueModel {
    match stored_value(m, f.number) {
        Some(v) => v,
        None => default_for(m.pool, f),
    }
}

/// Field `f` of `m` counts as set: a value is stored, and (without
/// presence tracking) it is not the zero value.
pub open spec fn field_set(m: MessageModel, f: FieldEntry) -> bool {
    match stored_value(m, f.number) {
        Some(v) => f.supports_presence || !is_zero(f.kind, v),
        None => false,
    }
}

/// The first of `fs` named `name`.
pub open spec fn first_named(fs: Seq<FieldEntry>, name: Seq<char>) -> Option<FieldEntry>
    decreases fs.len(),
{
    if fs.len() == 0 {
        None
    } else if fs[0].name@ == name {
        Some(fs[0])
    } else {
        first_named(fs.drop_first(), name)
    }
}

/// What the field named `name` of `m` reads as, if `m` has one.
pub open spec fn named_value(m: MessageModel, name: Seq<char>) -> Option<ValueModel> {
    match first_named(fields_of(m.pool, m.index), name) {
        Some(f) => Some(field_value(m, f)),
        None => None,
    }
}

/// The field named `name` of `m` is set.
pub open spec fn named_set(m: MessageModel, name: Seq<char>) -> bool {
    match first_named(fields_of(m.pool, m.index), name) {
        Some(f) => field_set(m, f),
        None => false,
    }
}

/// A map key as a JSON object key.
pub open spec fn json_key(k: KeyModel) -> Seq<char> {
    match k {
        KeyModel::Bool(b) => bool_text(b),
        KeyModel::I32(v) => spec_decimal_int(v as int),
        KeyModel::I64(v) => spec_decimal_int(v as int),
        KeyModel::U32(v) => spec_decimal(v as nat),
        KeyModel::U64(v) => spec_decimal(v as nat),
        KeyModel::Str(s) => s,
    }
}

/// A key of a `Struct` entry: a string as it is, another key as its
/// variant's name with the key in brackets.
pub open spec fn struct_key_text(k: KeyModel) -> Seq<char> {
    match k {
        KeyModel::Str(s) => s,
        KeyModel::Bool(_) => "Bool("@ + json_key(k) + seq![')'],
        KeyModel::I32(_) => "I32("@ + json_key(k) + seq![')'],
        KeyModel::I64(_) => "I64("@ + json_key(k) + seq![')'],
        KeyModel::U32(_) => "U32("@ + json_key(k) + seq![')'],
        KeyModel::U64(_) => "U64("@ + json_key(k) + seq![')'],
    }
}

/// The JSON of value `v` of kind `k`.
pub open spec fn value_out(st: JsonStyle, pool: PoolInner, k: KindRef, v: ValueModel, depth: nat) -> Outcome<
    JsonModel,
>
    decreases depth, 0nat, 0nat,
{
    match (k, v) {
        (KindRef::Message(_), ValueModel::Message(sub)) => if depth == 0 {
            Outcome::Failed
        } else {
            msg_out(st, sub, (depth - 1) as nat)
        },
        _ => match json_scalar(pool, st, k, v) {
            Some(j) => Outcome::Done(j),
            None => Outcome::Failed,
        },
    }
}

/// The JSON of the first `n` items of a list.
pub open spec fn items_out(
    st: JsonStyle,
    pool: PoolInner,
    k: KindRef,
    items: Seq<ValueModel>,
    depth: nat,
    n: nat,
) -> Outcome<Seq<JsonModel>>
    decreases depth, 1nat, n,
{
    if n == 0 || n > items.len() {
        Outcome::Done(seq![])
    } else {
        then_push(items_out(st, pool, k, items, depth, (n - 1) as nat), value_out(st, pool, k, items[n - 1], depth))
    }
}

/// The members for the first `n` map entries in the order `order`.
pub open spec fn entries_out(
    st: JsonStyle,
    pool: PoolInner,
    vk: KindRef,
    es: Seq<(KeyModel, ValueModel)>,
    order: Seq<int>,
    depth: nat,
    n: nat,
) -> Outcome<Seq<(Seq<char>, JsonModel)>>
    decreases depth, 1nat, n,
{
    if n == 0 || n > order.len() {
        Outcome::Done(seq![])
    } else {
        let e = es[order[n - 1]];
        then_push(
            entries_out(st, pool, vk, es, order, depth, (n - 1) as nat),
            keyed(json_key(e.0), value_out(st, pool, vk, e.1, depth)),
        )
    }
}

/// The JSON of field `f` holding `v`: an object for maps (entries in key
/// order), an array for lists, else the value's own JSON.
pub open spec fn field_out(st: JsonStyle, pool: PoolInner, f: FieldEntry, v: ValueModel, depth: nat) -> Outcome<
    JsonModel,
>
    decreases depth, 2nat, 0nat,
{
    if field_is_map(pool, f) {
        match v {
            ValueModel::Mapping(es) => match map_kinds(pool, f) {
                Some((_, vk)) => as_object(
                    entries_out(st, pool, vk, es, key_order(keys_of(es), es.len()), depth, es.len()),
                ),
                None => Outcome::Failed,
            },
            _ => Outcome::Done(JsonModel::Object(seq![])),
        }
    } else if f.cardinality == Cardinality::Repeated {
        match v {
            ValueModel::List(items) => as_array(items_out(st, pool, f.kind, items, depth, items.len())),
            _ => Outcome::Done(JsonModel::Array(seq![])),
        }
    } else {
        value_out(st, pool, f.kind, v, depth)
    }
}

/// The members of `m` for its first `n` declared fields: all of them, or
/// only the set ones when defaults are skipped; keyed by JSON name, or
/// by proto name when asked.
pub open spec fn members_out(st: JsonStyle, m: MessageModel, depth: nat, n: nat) -> Outcome<
    Seq<(Seq<char>, JsonModel)>,
>
    decreases depth, 3nat, n,
{
    let fs = fields_of(m.pool, m.index);
    if n == 0 || n > fs.len() {
        Outcome::Done(seq![])
    } else {
        let before = members_out(st, m, depth, (n - 1) as nat);
        let f = fs[n - 1];
        if !st.skip_defaults || field_set(m, f) {
            let key = if st.proto_names {
                f.name@
            } else {
                f.json_name@
            };
            then_push(before, keyed(key, field_out(st, m.pool, f, field_value(m, f), depth)))
        } else {
            before
        }
    }
}

/// The members for the first `n` entries (in the order `order`) of a
/// `Struct`'s map: the entries holding messages.
pub open spec fn struct_entries_out(
    st: JsonStyle,
    es: Seq<(KeyModel, ValueModel)>,
    order: Seq<int>,
    depth: nat,
    n: nat,
) -> Outcome<Seq<(Seq<char>, JsonModel)>>
    decreases depth, 4nat, n,
{
    if n == 0 || n > order.len() {
        Outcome::Done(seq![])
    } else {
        let before = struct_entries_out(st, es, order, depth, (n - 1) as nat);
        let e = es[order[n - 1]];
        match e.1 {
            ValueModel::Message(inner) => if depth == 0 {
                Outcome::Failed
            } else {
                then_push(before, keyed(struct_key_text(e.0), msg_out(st, inner, (depth - 1) as nat)))
            },
            _ => before,
        }
    }
}

/// The JSON of the first `n` items of a `ListValue`: the items holding
/// messages.
pub open spec fn list_items_out(st: JsonStyle, items: Seq<ValueModel>, depth: nat, n: nat) -> Outcome<
    Seq<JsonModel>,
>
    decreases depth, 4nat, n,
{
    if n == 0 || n > items.len() {
        Outcome::Done(seq![])
    } else {
        let before = list_items_out(st, items, depth, (n - 1) as nat);
        match items[n - 1] {
            ValueModel::Message(inner) => if depth == 0 {
                Outcome::Failed
            } else {
                then_push(before, msg_out(st, inner, (depth - 1) as nat))
            },
            _ => before,
        }
    }
}

/// The JSON of a `Struct`: an object of its `fields` map in key order.
pub open spec fn struct_out(st: JsonStyle, m: MessageModel, depth: nat) -> Outcome<JsonModel>
    decreases depth, 5nat, 0nat,
{
    match named_value(m, "fields"@) {
        Some(ValueModel::Mapping(es)) => as_object(
            struct_entries_out(st, es, key_order(keys_of(es), es.len()), depth, es.len()),
        ),
        _ => Outcome::Done(JsonModel::Object(seq![])),
    }
}

/// The items of a `ListValue`.
pub open spec fn list_values_of(m: MessageModel) -> Seq<ValueModel> {
    match named_value(m, "values"@) {
        Some(ValueModel::List(items)) => items,
        _ => seq![],
    }
}

/// The JSON of a `ListValue`: an array of its `values`.
pub open spec fn list_out(st: JsonStyle, m: MessageModel, depth: nat) -> Outcome<JsonModel>
    decreases depth, 5nat, 0nat,
{
    let items = list_values_of(m);
    as_array(list_items_out(st, items, depth, items.len()))
}

/// The JSON of a `Value`: its first set member, or `null`; a non-finite
/// number fails.
pub open spec fn dynamic_value_out(st: JsonStyle, m: MessageModel, depth: nat) -> Outcome<JsonModel>
    decreases depth, 6nat, 0nat,
{
    if named_set(m, "null_value"@) {
        Outcome::Done(JsonModel::Null)
    } else if named_set(m, "number_value"@) {
        let b: u64 = match named_value(m, "number_value"@) {
            Some(ValueModel::F64(b)) => b,
            _ => 0,
        };
        if (b / 0x10_0000_0000_0000) % 2048 == 2047 {
            Outcome::Failed
        } else {
            Outcome::Done(JsonModel::Float64(b))
        }
    } else if named_set(m, "string_value"@) {
        match named_value(m, "string_value"@) {
            Some(ValueModel::Str(s)) => Outcome::Done(JsonModel::Str(s)),
            _ => Outcome::Done(JsonModel::Str(seq![])),
        }
    } else if named_set(m, "bool_value"@) {
        match named_value(m, "bool_value"@) {
            Some(ValueModel::Bool(b)) => Outcome::Done(JsonModel::Bool(b)),
            _ => Outcome::Done(JsonModel::Bool(false)),
        }
    } else if named_set(m, "struct_value"@) && named_value(m, "struct_value"@) is Some
        && named_value(m, "struct_value"@)->0 is Message {
        struct_out(st, named_value(m, "struct_value"@)->0->Message_0, depth)
    } else if named_set(m, "list_value"@) && named_value(m, "list_value"@) is Some
        && named_value(m, "list_value"@)->0 is Message {
        list_out(st, named_value(m, "list_value"@)->0->Message_0, depth)
    } else {
        Outcome::Done(JsonModel::Null)
    }
}

/// A scalar wrapper's `value` field maps as its scalar; any other kind
/// (or no such field) fails.
pub open spec fn wrapper_out(st: JsonStyle, m: MessageModel) -> Outcome<JsonModel> {
    match first_named(fields_of(m.pool, m.index), "value"@) {
        Some(f) => {
            let v = field_value(m, f);
            let fits = match (f.kind, v) {
                (KindRef::String, ValueModel::Str(_)) | (KindRef::Bytes, ValueModel::Bytes(_))
                | (KindRef::Bool, ValueModel::Bool(_)) | (KindRef::Int32, ValueModel::I32(_))
                | (KindRef::Uint32, ValueModel::U32(_)) | (KindRef::Int64, ValueModel::I64(_))
                | (KindRef::Uint64, ValueModel::U64(_)) | (KindRef::Float, ValueModel::F32(_))
                | (KindRef::Double, ValueModel::F64(_)) => true,
                _ => false,
            };
            if fits {
                match json_scalar(m.pool, st, f.kind, v) {
                    Some(j) => Outcome::Done(j),
                    None => Outcome::Failed,
                }
            } else {
                Outcome::Failed
            }
        },
        None => Outcome::Failed,
    }
}

/// The lower-camel-case paths among the first `n` items, strings only.
pub open spec fn mask_paths(items: Seq<ValueModel>, n: nat) -> Seq<Seq<char>>
    decreases n,
{
    if n == 0 || n > items.len() {
        seq![]
    } else {
        match items[n - 1] {
            ValueModel::Str(p) => mask_paths(items, (n - 1) as nat).push(spec_lower_camel(p, false, true)),
            _ => mask_paths(items, (n - 1) as nat),
        }
    }
}

/// Parts joined by commas.
pub open spec fn comma_joined(parts: Seq<Seq<char>>) -> Seq<char>
    decreases parts.len(),
{
    if parts.len() == 0 {
        seq![]
    } else if parts.len() == 1 {
        parts[0]
    } else {
        comma_joined(parts.drop_last()) + seq![','] + parts.last()
    }
}

/// The 64-bit integer the field named `name` of `m` reads as (0 when it
/// is missing or of another type).
pub open spec fn named_i64(m: MessageModel, name: Seq<char>) -> i64 {
    match named_value(m, name) {
        Some(ValueModel::I64(v)) => v,
        _ => 0,
    }
}

/// The 32-bit integer the field named `name` of `m` reads as.
pub open spec fn named_i32(m: MessageModel, name: Seq<char>) -> i32 {
    match named_value(m, name) {
        Some(ValueModel::I32(v)) => v,
        _ => 0,
    }
}

/// The part of `url` after its last `/`.
pub open spec fn url_tail(url: Seq<char>) -> Seq<char>
    decreases url.len(),
{
    if url.len() == 0 {
        seq![]
    } else if url.last() == '/' {
        seq![]
    } else {
        url_tail(url.drop_last()).push(url.last())
    }
}

/// The JSON of an `Any`: `@type` (its URL) first, then the payload,
/// decoded as the type the URL's last segment names: a well-known payload
/// (but another `Any`) under `value`, any other payload's members inline.
/// Fails when the type is not in the pool, the payload does not decode, or
/// nesting is exhausted.
pub open spec fn any_out(st: JsonStyle, m: MessageModel, depth: nat) -> Outcome<JsonModel>
    decreases depth, 5nat, 0nat,
{
    let url: Seq<char> = match named_value(m, "type_url"@) {
        Some(ValueModel::Str(s)) => s,
        _ => seq![],
    };
    let bytes: Seq<u8> = match named_value(m, "value"@) {
        Some(ValueModel::Bytes(b)) => b,
        _ => seq![],
    };
    match table_get(m.pool.names@, spec_strip_dot(url_tail(url))) {
        Some(Definition::Message(i)) => match spec_decode(m.pool, i, bytes, RECURSION_LIMIT as nat) {
            Err(_) => Outcome::Failed,
            Ok(inner) => if depth == 0 {
                Outcome::Failed
            } else {
                let head = seq![("@type"@, JsonModel::Str(url))];
                let iname = full_name_of(inner);
                if wkt_names().contains(iname) && iname != "google.protobuf.Any"@ {
                    match msg_out(st, inner, (depth - 1) as nat) {
                        Outcome::Done(j) => Outcome::Done(JsonModel::Object(head.push(("value"@, j)))),
                        Outcome::Failed => Outcome::Failed,
                    }
                } else {
                    match members_out(st, inner, (depth - 1) as nat, fields_of(inner.pool, inner.index).len()) {
                        Outcome::Done(ms) => Outcome::Done(JsonModel::Object(head + ms)),
                        Outcome::Failed => Outcome::Failed,
                    }
                }
            },
        },
        _ => Outcome::Failed,
    }
}

/// The proto3 JSON of message `m` with at most `depth` more levels of
/// nesting: the well-known types by their own mappings, any other message
/// as an object of its members.
pub open spec fn msg_out(st: JsonStyle, m: MessageModel, depth: nat) -> Outcome<JsonModel>
    decreases depth, 7nat, 0nat,
{
    let name = full_name_of(m);
    if !wkt_names().contains(name) {
        as_object(members_out(st, m, depth, fields_of(m.pool, m.index).len()))
    } else if name == "google.protobuf.Empty"@ {
        Outcome::Done(JsonModel::Object(seq![]))
    } else if name == "google.protobuf.Timestamp"@ {
        match rfc3339_text(named_i64(m, "seconds"@), named_i32(m, "nanos"@) as u32) {
            Some(s) => Outcome::Done(JsonModel::Str(s)),
            None => Outcome::Failed,
        }
    } else if name == "google.protobuf.Duration"@ {
        Outcome::Done(JsonModel::Str(duration_text(named_i64(m, "seconds"@), named_i32(m, "nanos"@))))
    } else if name == "google.protobuf.FieldMask"@ {
        let items = match named_value(m, "paths"@) {
            Some(ValueModel::List(items)) => items,
            _ => seq![],
        };
        Outcome::Done(JsonModel::Str(comma_joined(mask_paths(items, items.len()))))
    } else if name == "google.protobuf.Struct"@ {
        struct_out(st, m, depth)
    } else if name == "google.protobuf.ListValue"@ {
        list_out(st, m, depth)
    } else if name == "google.protobuf.Value"@ {
        dynamic_value_out(st, m, depth)
    } else if name == "google.protobuf.Any"@ {
        any_out(st, m, depth)
    } else {
        wrapper_out(st, m)
    }
}

/// The nesting budget of JSON conversion: the recursion of reading and
/// writing is bounded by it, far beyond any nesting a message reaches in
/// memory.
pub const JSON_DEPTH_LIMIT: u32 = 0xffff_ffff;

fn err(msg: &str) -> (r: String)
    ensures
        r@ == msg@,
{
    msg.to_owned()
}

/// A copy of the value stored for field number `n` of `m`.
fn stored(m: &DynamicMessage, n: u32) -> (r: Option<Value>)
    ensures
        match r {
            Some(v) => stored_value(m.model(), n) == Some(v.model()),
            None => stored_value(m.model(), n) is None,
        },
{
    proof {
        m.lemma_model();
        crate::message::lemma_slot_models_len(m.fields@);
    }
    match crate::textfmt::slot_position(&m.fields, n) {
        Some(p) => match &m.fields[p].1 {
            Slot::Value(v) => Some(v.duplicate()),
            Slot::Unknown(_) => None,
        },
        None => None,
    }
}

/// The value of `fd` in `m`: what is stored, else the field's default.
fn read_field(m: &DynamicMessage, fd: &FieldDescriptor) -> (r: Value)
    requires
        fd.pool_view() == m.model().pool,
    ensures
        r.model() == field_value(m.model(), fd.entry()),
{
    match stored(m, fd.number()) {
        Some(v) => v,
        None => Value::default_value_for_field(fd),
    }
}

/// Whether `fd` counts as set in `m`.
fn is_set(m: &DynamicMessage, fd: &FieldDescriptor) -> (r: bool)
    ensures
        r == field_set(m.model(), fd.entry()),
{
    match stored(m, fd.number()) {
        Some(v) => fd.supports_presence() || !crate::message::is_zero_value(fd.kind_ref(), &v),
        None => false,
    }
}

/// The value of the field named `name` of `m`, if it has one by that name.
pub(crate) fn read_named(m: &DynamicMessage, name: &str) -> (r: Option<Value>)
    ensures
        match r {
            Some(v) => named_value(m.model(), name@) == Some(v.model()),
            None => named_value(m.model(), name@) is None,
        },
{
    proof {
        m.lemma_model();
    }
    match field_named(m, name) {
        Some(fd) => Some(read_field(m, &fd)),
        None => None,
    }
}

/// The first field of `m`'s type named `name`.
fn field_named(m: &DynamicMessage, name: &str) -> (r: Option<FieldDescriptor>)
    ensures
        match r {
            Some(fd) => fd.pool_view() == m.model().pool && first_named(
                fields_of(m.model().pool, m.model().index),
                name@,
            ) == Some(fd.entry()),
            None => first_named(fields_of(m.model().pool, m.model().index), name@) is None,
        },
{
    proof {
        m.lemma_model();
    }
    let r = m.desc.get_field_by_name(name);
    proof {
        let fs = fields_of(m.model().pool, m.model().index);
        assert(fs == m.desc.entry().fields@);
        if r is Some {
            lemma_first_named_at(fs, name@, r->0.index() as int);
        } else {
            lemma_first_named_none(fs, name@);
        }
    }
    r
}

pub proof fn lemma_first_named_at(fs: Seq<FieldEntry>, name: Seq<char>, i: int)
    requires
        0 <= i < fs.len(),
        fs[i].name@ == name,
        forall|k: int| 0 <= k < i ==> #[trigger] fs[k].name@ != name,
    ensures
        first_named(fs, name) == Some(fs[i]),
    decreases i,
{
    if i > 0 {
        let t = fs.drop_first();
        assert forall|k: int| 0 <= k < i - 1 implies #[trigger] t[k].name@ != name by {
            assert(t[k] == fs[k + 1]);
        }
        assert(fs[0].name@ != name);
        lemma_first_named_at(t, name, i - 1);
    }
}

pub proof fn lemma_first_named_none(fs: Seq<FieldEntry>, name: Seq<char>)
    requires
        forall|k: int| 0 <= k < fs.len() ==> #[trigger] fs[k].name@ != name,
    ensures
        first_named(fs, name) is None,
    decreases fs.len(),
{
    if fs.len() > 0 {
        let t = fs.drop_first();
        assert forall|k: int| 0 <= k < t.len() implies #[trigger] t[k].name@ != name by {
            assert(t[k] == fs[k + 1]);
        }
        assert(fs[0].name@ != name);
        lemma_first_named_none(t, name);
    }
}

fn read_i64(m: &DynamicMessage, name: &str) -> (r: i64)
    ensures
        r == named_i64(m.model(), name@),
{
    match read_named(m, name) {
        Some(Value::I64(v)) => v,
        _ => 0,
    }
}

fn read_i32(m: &DynamicMessage, name: &str) -> (r: i32)
    ensures
        r == named_i32(m.model(), name@),
{
    match read_named(m, name) {
        Some(Value::I32(v)) => v,
        _ => 0,
    }
}

proof fn lemma_json_models_push(s: Seq<Json>, x: Json)
    ensures
        json_models(s.push(x)) == json_models(s).push(x.model()),
    decreases s.len(),
{
    let p = s.push(x);
    if s.len() == 0 {
        assert(p.subrange(1, 1) =~= Seq::<Json>::empty());
        assert(json_models(p.subrange(1, 1)) == Seq::<JsonModel>::empty());
        assert(json_models(p) == seq![x.model()] + json_models(p.subrange(1, 1)));
        assert(json_models(p) =~= json_models(s).push(x.model()));
    } else {
        let t = s.subrange(1, s.len() as int);
        lemma_json_models_push(t, x);
        assert(p.subrange(1, s.len() as int + 1) =~= t.push(x));
        assert(json_models(p) == seq![p[0].model()] + json_models(t.push(x)));
        assert(json_models(s) == seq![s[0].model()] + json_models(t));
        assert(json_models(p) =~= json_models(s).push(x.model()));
    }
}

proof fn lemma_json_entry_models_push(s: Seq<(String, Json)>, x: (String, Json))
    ensures
        json_entry_models(s.push(x)) == json_entry_models(s).push((x.0@, x.1.model())),
    decreases s.len(),
{
    let p = s.push(x);
    if s.len() == 0 {
        assert(p.subrange(1, 1) =~= Seq::<(String, Json)>::empty());
        assert(json_entry_models(p.subrange(1, 1)) == Seq::<(Seq<char>, JsonModel)>::empty());
        assert(json_entry_models(p) == seq![(p[0].0@, p[0].1.model())] + json_entry_models(p.subrange(1, 1)));
        assert(json_entry_models(p) =~= json_entry_models(s).push((x.0@, x.1.model())));
    } else {
        let t = s.subrange(1, s.len() as int);
        lemma_json_entry_models_push(t, x);
        assert(p.subrange(1, s.len() as int + 1) =~= t.push(x));
        assert(json_entry_models(p) == seq![(p[0].0@, p[0].1.model())] + json_entry_models(t.push(x)));
        assert(json_entry_models(s) == seq![(s[0].0@, s[0].1.model())] + json_entry_models(t));
        assert(json_entry_models(p) =~= json_entry_models(s).push((x.0@, x.1.model())));
    }
}

proof fn lemma_items_stuck(
    st: JsonStyle,
    pool: PoolInner,
    k: KindRef,
    items: Seq<ValueModel>,
    depth: nat,
    j: nat,
    n: nat,
)
    requires
        j <= n <= items.len(),
        !(items_out(st, pool, k, items, depth, j) is Done),
    ensures
        !(items_out(st, pool, k, items, depth, n) is Done),
    decreases n - j,
{
    if j < n {
        lemma_items_stuck(st, pool, k, items, depth, j, (n - 1) as nat);
    }
}

proof fn lemma_entries_stuck(
    st: JsonStyle,
    pool: PoolInner,
    vk: KindRef,
    es: Seq<(KeyModel, ValueModel)>,
    order: Seq<int>,
    depth: nat,
    j: nat,
    n: nat,
)
    requires
        j <= n <= order.len(),
        !(entries_out(st, pool, vk, es, order, depth, j) is Done),
    ensures
        !(entries_out(st, pool, vk, es, order, depth, n) is Done),
    decreases n - j,
{
    if j < n {
        lemma_entries_stuck(st, pool, vk, es, order, depth, j, (n - 1) as nat);
    }
}

proof fn lemma_members_stuck(st: JsonStyle, m: MessageModel, depth: nat, j: nat, n: nat)
    requires
        j <= n <= fields_of(m.pool, m.index).len(),
        !(members_out(st, m, depth, j) is Done),
    ensures
        !(members_out(st, m, depth, n) is Done),
    decreases n - j,
{
    if j < n {
        lemma_members_stuck(st, m, depth, j, (n - 1) as nat);
    }
}

proof fn lemma_struct_entries_stuck(
    st: JsonStyle,
    es: Seq<(KeyModel, ValueModel)>,
    order: Seq<int>,
    depth: nat,
    j: nat,
    n: nat,
)
    requires
        j <= n <= order.len(),
        !(struct_entries_out(st, es, order, depth, j) is Done),
    ensures
        !(struct_entries_out(st, es, order, depth, n) is Done),
    decreases n - j,
{
    if j < n {
        lemma_struct_entries_stuck(st, es, order, depth, j, (n - 1) as nat);
    }
}

proof fn lemma_list_items_stuck(st: JsonStyle, items: Seq<ValueModel>, depth: nat, j: nat, n: nat)
    requires
        j <= n <= items.len(),
        !(list_items_out(st, items, depth, j) is Done),
    ensures
        !(list_items_out(st, items, depth, n) is Done),
    decreases n - j,
{
    if j < n {
        lemma_list_items_stuck(st, items, depth, j, (n - 1) as nat);
    }
}

/// The JSON of value `v` of kind `k` (a field's element).
fn value_json(
    pool: &DescriptorPool,
    o: &SerializeOptions,
    k: KindRef,
    v: &Value,
    depth: u32,
) -> (r: Result<Json, String>)
    requires
        kind_ok(k, pool.view_inner().messages@.len(), pool.view_inner().enums@.len()),
    ensures
        outcome_ok(r, value_out(json_style(*o), pool.view_inner(), k, v.model(), depth as nat)),
    decreases depth, 0int,
{
    if let (KindRef::Message(_), Value::Message(sub)) = (k, v) {
        if depth == 0 {
            return Err(err("messages nest too deeply"));
        }
        return message_json(sub, o, depth - 1);
    }
    match scalar_json(pool, o, k, v) {
        Some(j) => Ok(j),
        None => Err(err("value/kind mismatch")),
    }
}

/// The JSON of field `fd` holding `v`: an array for lists, an object for
/// maps, else the single value.
fn field_json(o: &SerializeOptions, fd: &FieldDescriptor, v: &Value, depth: u32) -> (r: Result<Json, String>)
    ensures
        outcome_ok(r, field_out(json_style(*o), fd.pool_view(), fd.entry(), v.model(), depth as nat)),
    decreases depth, 1int,
{
    let ghost st = json_style(*o);
    let ghost pv = fd.pool_view();
    let k = fd.kind_ref();
    let pool = fd.pool_ref();
    if fd.is_map() {
        let es = match v {
            Value::Mapping(es) => es,
            _ => {
                let r = Json::Object(Vec::new());
                assert(r.model() == JsonModel::Object(seq![]));
                return Ok(r);
            },
        };
        let _p = pool.inner_ref();
        proof {
            crate::message::lemma_map_kinds_ok(fd.pool_view(), fd.entry());
            lemma_entry_models_len(es@);
        }
        let vk = match crate::message::map_entry_kinds(fd) {
            Some((_, vk)) => vk,
            None => {
                return Err(err("map field without map-entry descriptor"));
            },
        };
        let ghost em = entry_models(es@);
        let ghost ord = key_order(keys_of(em), em.len());
        let order = crate::textfmt::sorted_indices(es);
        let mut out: Vec<(String, Json)> = Vec::new();
        let mut j: usize = 0;
        assert(json_entry_models(out@) =~= seq![]);
        while j < order.len()
            invariant
                j <= order@.len(),
                order@.len() == es@.len(),
                em == entry_models(es@),
                em.len() == es@.len(),
                forall|q: int| 0 <= q < es@.len() ==> #[trigger] em[q] == (es@[q].0.model(), es@[q].1.model()),
                forall|q: int| 0 <= q < order@.len() ==> #[trigger] order@[q] < es@.len(),
                order@.map_values(|x: usize| x as int) == ord,
                ord == key_order(keys_of(em), em.len()),
                kind_ok(vk, pool.view_inner().messages@.len(), pool.view_inner().enums@.len()),
                pool.view_inner() == pv,
                pv == fd.pool_view(),
                st == json_style(*o),
                v.model() == ValueModel::Mapping(em),
                field_is_map(pv, fd.entry()),
                map_kinds(pv, fd.entry()) matches Some((_, x)) && x == vk,
                !(entries_out(st, pv, vk, em, ord, depth as nat, j as nat) is Failed),
                entries_out(st, pv, vk, em, ord, depth as nat, j as nat) matches Outcome::Done(s)
                    ==> json_entry_models(out@) == s,
            decreases order@.len() - j,
        {
            let i = order[j];
            assert(ord[j as int] == i as int);
            let key = map_key_string(&es[i].0);
            let val = match value_json(pool, o, vk, &es[i].1, depth) {
                Ok(x) => x,
                Err(e) => {
                    proof {
                        lemma_entries_stuck(st, pv, vk, em, ord, depth as nat, (j + 1) as nat, order@.len() as nat);
                    }
                    return Err(e);
                },
            };
            proof {
                lemma_json_entry_models_push(out@, (key, val));
            }
            out.push((key, val));
            j = j + 1;
        }
        return Ok(Json::Object(out));
    }
    if fd.cardinality() == Cardinality::Repeated {
        let items = match v {
            Value::List(items) => items,
            _ => {
                let r = Json::Array(Vec::new());
                assert(r.model() == JsonModel::Array(seq![]));
                return Ok(r);
            },
        };
        let ghost im = crate::value::models_of(items@);
        proof {
            crate::value::lemma_models_len(items@);
        }
        let mut out: Vec<Json> = Vec::new();
        let mut j: usize = 0;
        assert(json_models(out@) =~= seq![]);
        while j < items.len()
            invariant
                j <= items@.len(),
                im == crate::value::models_of(items@),
                im.len() == items@.len(),
                forall|q: int| 0 <= q < items@.len() ==> #[trigger] im[q] == items@[q].model(),
                k == fd.entry().kind,
                kind_ok(k, pool.view_inner().messages@.len(), pool.view_inner().enums@.len()),
                pool.view_inner() == pv,
                pv == fd.pool_view(),
                st == json_style(*o),
                v.model() == ValueModel::List(im),
                !field_is_map(pv, fd.entry()),
                fd.entry().cardinality == Cardinality::Repeated,
                !(items_out(st, pv, k, im, depth as nat, j as nat) is Failed),
                items_out(st, pv, k, im, depth as nat, j as nat) matches Outcome::Done(s)
                    ==> json_models(out@) == s,
            decreases items@.len() - j,
        {
            let x = match value_json(pool, o, k, &items[j], depth) {
                Ok(x) => x,
                Err(e) => {
                    proof {
                        lemma_items_stuck(st, pv, k, im, depth as nat, (j + 1) as nat, items@.len() as nat);
                    }
                    return Err(e);
                },
            };
            proof {
                lemma_json_models_push(out@, x);
            }
            out.push(x);
            j = j + 1;
        }
        return Ok(Json::Array(out));
    }
    value_json(pool, o, k, v, depth)
}

/// A map key as a JSON object key.
fn map_key_string(k: &MapKey) -> (r: String)
    ensures
        r@ == json_key(k.model()),
{
    let mut s = String::new();
    match k {
        MapKey::Bool(b) => {
            if *b {
                s.push_str("true");
                proof {
                    reveal_strlit("true");
                }
            } else {
                s.push_str("false");
                proof {
                    reveal_strlit("false");
                }
            }
        },
        MapKey::I32(v) => push_decimal_i64(&mut s, *v as i64),
        MapKey::I64(v) => push_decimal_i64(&mut s, *v),
        MapKey::U32(v) => push_decimal(&mut s, *v as u64),
        MapKey::U64(v) => push_decimal(&mut s, *v),
        MapKey::String(t) => s.push_str(t.as_str()),
    }
    assert(s@ =~= json_key(k.model()));
    s
}

/// A key of a `Struct` map: string keys as they are, others spelled as
/// their variant and value.
fn struct_key(k: &MapKey) -> (r: String)
    ensures
        r@ == struct_key_text(k.model()),
{
    let mut s = String::new();
    match k {
        MapKey::String(t) => {
            s.push_str(t.as_str());
            assert(s@ =~= struct_key_text(k.model()));
            return s;
        },
        MapKey::Bool(_) => s.push_str("Bool("),
        MapKey::I32(_) => s.push_str("I32("),
        MapKey::I64(_) => s.push_str("I64("),
        MapKey::U32(_) => s.push_str("U32("),
        MapKey::U64(_) => s.push_str("U64("),
    }
    s.push_str(map_key_string(k).as_str());
    s.push(')');
    assert(s@ =~= struct_key_text(k.model()));
    s
}

/// The members of plain message `m`, in declaration order: every field
/// when defaults are kept, else the set ones, keyed by JSON or proto name.
fn members(m: &DynamicMessage, o: &SerializeOptions, depth: u32) -> (r: Result<Vec<(String, Json)>, String>)
    ensures
        match members_out(
            json_style(*o),
            m.model(),
            depth as nat,
            fields_of(m.model().pool, m.model().index).len(),
        ) {
            Outcome::Done(s) => r is Ok && json_entry_models(r->Ok_0@) == s,
            Outcome::Failed => r is Err,
        },
    decreases depth, 2int,
{
    proof {
        m.lemma_model();
    }
    let ghost st = json_style(*o);
    let ghost mm = m.model();
    let ghost fs = fields_of(mm.pool, mm.index);
    let fds = m.desc.fields();
    assert(fs == m.desc.entry().fields@);
    let mut out: Vec<(String, Json)> = Vec::new();
    let mut j: usize = 0;
    assert(json_entry_models(out@) =~= seq![]);
    while j < fds.len()
        invariant
            j <= fds@.len(),
            fds@.len() == fs.len(),
            mm == m.model(),
            fs == fields_of(mm.pool, mm.index),
            forall|q: int|
                0 <= q < fds@.len() ==> (#[trigger] fds@[q]).pool_view() == mm.pool
                    && fds@[q].message() == mm.index && fds@[q].index() == q,
            st == json_style(*o),
            !(members_out(st, mm, depth as nat, j as nat) is Failed),
            members_out(st, mm, depth as nat, j as nat) matches Outcome::Done(s) ==> json_entry_models(out@) == s,
        decreases fds@.len() - j,
    {
        let fd = &fds[j];
        assert(fd.entry() == fs[j as int]);
        if !o.skips_defaults() || is_set(m, fd) {
            let key = if o.proto_names() {
                fd.name().to_owned()
            } else {
                fd.json_name().to_owned()
            };
            let v = read_field(m, fd);
            let val = match field_json(o, fd, &v, depth) {
                Ok(x) => x,
                Err(e) => {
                    proof {
                        lemma_members_stuck(st, mm, depth as nat, (j + 1) as nat, fs.len());
                    }
                    return Err(e);
                },
            };
            proof {
                lemma_json_entry_models_push(out@, (key, val));
            }
            out.push((key, val));
        }
        j = j + 1;
    }
    Ok(out)
}

/// The JSON object of a message that has no special mapping.
fn plain_json(m: &DynamicMessage, o: &SerializeOptions, depth: u32) -> (r: Result<Json, String>)
    ensures
        outcome_ok(
            r,
            as_object(members_out(json_style(*o), m.model(), depth as nat, fields_of(m.model().pool, m.model().index).len())),
        ),
    decreases depth, 3int,
{
    match members(m, o, depth) {
        Ok(ms) => Ok(Json::Object(ms)),
        Err(e) => Err(e),
    }
}

/// The JSON of a `Struct` message.
fn struct_json(m: &DynamicMessage, o: &SerializeOptions, depth: u32) -> (r: Result<Json, String>)
    ensures
        outcome_ok(r, struct_out(json_style(*o), m.model(), depth as nat)),
    decreases depth, 3int,
{
    let ghost st = json_style(*o);
    let es = match read_named(m, "fields") {
        Some(Value::Mapping(es)) => es,
        _ => {
            let r = Json::Object(Vec::new());
            assert(r.model() == JsonModel::Object(seq![]));
            return Ok(r);
        },
    };
    proof {
        lemma_entry_models_len(es@);
    }
    let ghost em = entry_models(es@);
    let ghost ord = key_order(keys_of(em), em.len());
    let order = crate::textfmt::sorted_indices(&es);
    let mut out: Vec<(String, Json)> = Vec::new();
    let mut j: usize = 0;
    assert(json_entry_models(out@) =~= seq![]);
    while j < order.len()
        invariant
            j <= order@.len(),
            order@.len() == es@.len(),
            em == entry_models(es@),
            em.len() == es@.len(),
            forall|q: int| 0 <= q < es@.len() ==> #[trigger] em[q] == (es@[q].0.model(), es@[q].1.model()),
            forall|q: int| 0 <= q < order@.len() ==> #[trigger] order@[q] < es@.len(),
            order@.map_values(|x: usize| x as int) == ord,
            ord == key_order(keys_of(em), em.len()),
            st == json_style(*o),
            named_value(m.model(), "fields"@) == Some(ValueModel::Mapping(em)),
            !(struct_entries_out(st, em, ord, depth as nat, j as nat) is Failed),
            struct_entries_out(st, em, ord, depth as nat, j as nat) matches Outcome::Done(s)
                ==> json_entry_models(out@) == s,
        decreases order@.len() - j,
    {
        let i = order[j];
        assert(ord[j as int] == i as int);
        if let Value::Message(inner) = &es[i].1 {
            if depth == 0 {
                proof {
                    lemma_struct_entries_stuck(st, em, ord, depth as nat, (j + 1) as nat, order@.len() as nat);
                }
                return Err(err("messages nest too deeply"));
            }
            let key = struct_key(&es[i].0);
            let val = match message_json(inner, o, depth - 1) {
                Ok(x) => x,
                Err(e) => {
                    proof {
                        lemma_struct_entries_stuck(st, em, ord, depth as nat, (j + 1) as nat, order@.len() as nat);
                    }
                    return Err(e);
                },
            };
            proof {
                lemma_json_entry_models_push(out@, (key, val));
            }
            out.push((key, val));
        }
        j = j + 1;
    }
    Ok(Json::Object(out))
}

/// The JSON of a `ListValue` message.
fn list_json(m: &DynamicMessage, o: &SerializeOptions, depth: u32) -> (r: Result<Json, String>)
    ensures
        outcome_ok(r, list_out(json_style(*o), m.model(), depth as nat)),
    decreases depth, 3int,
{
    let ghost st = json_style(*o);
    let items = match read_named(m, "values") {
        Some(Value::List(items)) => items,
        _ => Vec::new(),
    };
    proof {
        crate::value::lemma_models_len(items@);
    }
    let ghost im = crate::value::models_of(items@);
    assert(im =~= list_values_of(m.model()));
    let mut out: Vec<Json> = Vec::new();
    let mut j: usize = 0;
    assert(json_models(out@) =~= seq![]);
    while j < items.len()
        invariant
            j <= items@.len(),
            im.len() == items@.len(),
            forall|q: int| 0 <= q < items@.len() ==> #[trigger] im[q] == items@[q].model(),
            st == json_style(*o),
            im == list_values_of(m.model()),
            !(list_items_out(st, im, depth as nat, j as nat) is Failed),
            list_items_out(st, im, depth as nat, j as nat) matches Outcome::Done(s) ==> json_models(out@) == s,
        decreases items@.len() - j,
    {
        if let Value::Message(inner) = &items[j] {
            if depth == 0 {
                proof {
                    lemma_list_items_stuck(st, im, depth as nat, (j + 1) as nat, items@.len() as nat);
                }
                return Err(err("messages nest too deeply"));
            }
            let x = match message_json(inner, o, depth - 1) {
                Ok(x) => x,
                Err(e) => {
                    proof {
                        lemma_list_items_stuck(st, im, depth as nat, (j + 1) as nat, items@.len() as nat);
                    }
                    return Err(e);
                },
            };
            proof {
                lemma_json_models_push(out@, x);
            }
            out.push(x);
        }
        j = j + 1;
    }
    Ok(Json::Array(out))
}

/// Whether the field named `name` of `m` is set.
fn named_is_set(m: &DynamicMessage, name: &str) -> (r: bool)
    ensures
        r == named_set(m.model(), name@),
{
    match field_named(m, name) {
        Some(fd) => is_set(m, &fd),
        None => false,
    }
}

/// The JSON of a `Value` message: its set member, or `null`.
fn dynamic_value_json(m: &DynamicMessage, o: &SerializeOptions, depth: u32) -> (r: Result<Json, String>)
    ensures
        outcome_ok(r, dynamic_value_out(json_style(*o), m.model(), depth as nat)),
    decreases depth, 4int,
{
    if named_is_set(m, "null_value") {
        return Ok(Json::Null);
    }
    if named_is_set(m, "number_value") {
        let b = match read_named(m, "number_value") {
            Some(Value::F64(b)) => b,
            _ => 0,
        };
        if (b / 0x10_0000_0000_0000) % 2048 == 2047 {
            return Err(err("cannot serialize non-finite double in google.protobuf.Value"));
        }
        return Ok(Json::Float64(b));
    }
    if named_is_set(m, "string_value") {
        return match read_named(m, "string_value") {
            Some(Value::String(s)) => Ok(Json::Str(s)),
            _ => {
                let r = Json::Str(String::new());
                assert(r.model() == JsonModel::Str(seq![]));
                Ok(r)
            },
        };
    }
    if named_is_set(m, "bool_value") {
        return match read_named(m, "bool_value") {
            Some(Value::Bool(b)) => Ok(Json::Bool(b)),
            _ => Ok(Json::Bool(false)),
        };
    }
    if named_is_set(m, "struct_value") {
        if let Some(Value::Message(inner)) = read_named(m, "struct_value") {
            return struct_json(&inner, o, depth);
        }
    }
    if named_is_set(m, "list_value") {
        if let Some(Value::Message(inner)) = read_named(m, "list_value") {
            return list_json(&inner, o, depth);
        }
    }
    Ok(Json::Null)
}

/// The JSON of a scalar wrapper message: its `value` field's JSON.
fn wrapper_json(m: &DynamicMessage, o: &SerializeOptions) -> (r: Result<Json, String>)
    ensures
        outcome_ok(r, wrapper_out(json_style(*o), m.model())),
{
    let fd = match field_named(m, "value") {
        Some(fd) => fd,
        None => {
            return Err(err("wrapper missing `value` field"));
        },
    };
    let v = read_field(m, &fd);
    let k = fd.kind_ref();
    match (k, &v) {
        (KindRef::String, Value::String(_)) | (KindRef::Bytes, Value::Bytes(_)) | (KindRef::Bool, Value::Bool(_))
        | (KindRef::Int32, Value::I32(_)) | (KindRef::Uint32, Value::U32(_)) | (KindRef::Int64, Value::I64(_))
        | (KindRef::Uint64, Value::U64(_)) | (KindRef::Float, Value::F32(_)) | (KindRef::Double, Value::F64(_)) => {
            match scalar_json(fd.pool_ref(), o, k, &v) {
                Some(j) => Ok(j),
                None => Err(err("scalar wrapper kind/value mismatch")),
            }
        },
        _ => Err(err("scalar wrapper kind/value mismatch")),
    }
}

/// The JSON of a `FieldMask`: its paths in lower camel case, joined by
/// commas.
fn field_mask_json(m: &DynamicMessage) -> (r: Json)
    ensures
        r.model() == JsonModel::Str(comma_joined(mask_paths(
            match named_value(m.model(), "paths"@) {
                Some(ValueModel::List(items)) => items,
                _ => seq![],
            },
            match named_value(m.model(), "paths"@) {
                Some(ValueModel::List(items)) => items.len(),
                _ => 0,
            },
        ))),
{
    let items = match read_named(m, "paths") {
        Some(Value::List(items)) => items,
        _ => Vec::new(),
    };
    proof {
        crate::value::lemma_models_len(items@);
    }
    let ghost im = crate::value::models_of(items@);
    assert(im =~= match named_value(m.model(), "paths"@) {
        Some(ValueModel::List(items)) => items,
        _ => seq![],
    });
    let mut s = String::new();
    let mut first = true;
    let mut j: usize = 0;
    assert(s@ =~= comma_joined(mask_paths(im, 0)));
    while j < items.len()
        invariant
            j <= items@.len(),
            im.len() == items@.len(),
            forall|q: int| 0 <= q < items@.len() ==> #[trigger] im[q] == items@[q].model(),
            s@ == comma_joined(mask_paths(im, j as nat)),
            first == (mask_paths(im, j as nat).len() == 0),
        decreases items@.len() - j,
    {
        if let Value::String(p) = &items[j] {
            let ghost before = mask_paths(im, j as nat);
            let camel = snake_to_lower_camel(p.as_str());
            assert(mask_paths(im, (j + 1) as nat) == before.push(camel@));
            assert(before.push(camel@).drop_last() =~= before);
            if !first {
                s.push(',');
            }
            s.push_str(camel.as_str());
            first = false;
            assert(s@ =~= comma_joined(before.push(camel@)));
        }
        j = j + 1;
    }
    Json::Str(s)
}

/// The part of a type URL after its last `/`.
pub(crate) fn payload_name_of_url(url: &String) -> (r: String)
    ensures
        r@ == url_tail(url@),
{
    let cs = crate::text::chars_of(url.as_str());
    let mut start: usize = 0;
    let mut i: usize = 0;
    assert(cs@.take(0) =~= seq![]);
    while i < cs.len()
        invariant
            i <= cs@.len(),
            start <= i,
            url_tail(cs@.take(i as int)) == cs@.subrange(start as int, i as int),
        decreases cs@.len() - i,
    {
        assert(cs@.take(i + 1).drop_last() =~= cs@.take(i as int));
        assert(cs@.take(i + 1).last() == cs@[i as int]);
        if cs[i] == '/' {
            start = i + 1;
        }
        i = i + 1;
        assert(url_tail(cs@.take(i as int)) =~= cs@.subrange(start as int, i as int));
    }
    assert(cs@.take(cs@.len() as int) =~= cs@);
    let mut out = String::new();
    let mut j = start;
    while j < cs.len()
        invariant
            start <= j <= cs@.len(),
            out@ == cs@.subrange(start as int, j as int),
        decreases cs@.len() - j,
    {
        out.push(cs[j]);
        j = j + 1;
        assert(out@ =~= cs@.subrange(start as int, j as int));
    }
    out
}

/// The JSON of an `Any`: its payload decoded with the type its URL names,
/// `@type` first; a well-known payload goes under `value`.
fn any_json(m: &DynamicMessage, o: &SerializeOptions, depth: u32) -> (r: Result<Json, String>)
    ensures
        outcome_ok(r, any_out(json_style(*o), m.model(), depth as nat)),
    decreases depth, 3int,
{
    proof {
        m.lemma_model();
    }
    let url = match read_named(m, "type_url") {
        Some(Value::String(s)) => s,
        _ => String::new(),
    };
    let bytes = match read_named(m, "value") {
        Some(Value::Bytes(b)) => b,
        _ => Vec::new(),
    };
    let inner_name = payload_name_of_url(&url);
    let pool = m.parent_pool();
    let inner_desc = match pool.get_message_by_name(inner_name.as_str()) {
        Some(d) => d,
        None => {
            let mut e = "Any payload type `".to_owned();
            e.push_str(inner_name.as_str());
            e.push_str("` not found in pool");
            return Err(e);
        },
    };
    let inner = match DynamicMessage::decode(inner_desc, bytes.as_slice()) {
        Ok(x) => x,
        Err(_) => {
            return Err(err("Any payload decode failed"));
        },
    };
    if depth == 0 {
        return Err(err("messages nest too deeply"));
    }
    proof {
        inner.lemma_model();
    }
    let inner_full = inner.desc.full_name();
    let ghost head = seq![("@type"@, JsonModel::Str(url@))];
    let mut out: Vec<(String, Json)> = Vec::new();
    let first = ("@type".to_owned(), Json::Str(url));
    proof {
        lemma_json_entry_models_push(out@, first);
        assert(json_entry_models(out@) =~= seq![]);
    }
    out.push(first);
    assert(json_entry_models(out@) =~= head);
    if is_well_known_type(inner_full) && !is_any_name(inner_full) {
        let v = match message_json(&inner, o, depth - 1) {
            Ok(v) => v,
            Err(e) => {
                return Err(e);
            },
        };
        let second = ("value".to_owned(), v);
        proof {
            lemma_json_entry_models_push(out@, second);
        }
        out.push(second);
    } else {
        let mut rest = match members(&inner, o, depth - 1) {
            Ok(x) => x,
            Err(e) => {
                return Err(e);
            },
        };
        let ghost all = json_entry_models(rest@);
        assert(json_entry_models(out@) + json_entry_models(rest@) =~= head + all);
        while rest.len() > 0
            invariant
                json_entry_models(out@) + json_entry_models(rest@) == head + all,
            decreases rest@.len(),
        {
            let ghost before = rest@;
            let e = rest.remove(0);
            proof {
                assert(rest@ =~= before.subrange(1, before.len() as int));
                assert(json_entry_models(before) == seq![(e.0@, e.1.model())] + json_entry_models(rest@));
                lemma_json_entry_models_push(out@, e);
            }
            out.push(e);
            assert(json_entry_models(out@) + json_entry_models(rest@) =~= head + all);
        }
        assert(json_entry_models(rest@) =~= seq![]);
        assert(json_entry_models(out@) =~= head + all);
    }
    Ok(Json::Object(out))
}

pub(crate) fn is_any_name(s: &str) -> (r: bool)
    ensures
        r == (s@ == "google.protobuf.Any"@),
{
    s.to_owned() == "google.protobuf.Any".to_owned()
}

/// The JSON of message `m`: by its well-known mapping, else an object of
/// its fields.
fn message_json(m: &DynamicMessage, o: &SerializeOptions, depth: u32) -> (r: Result<Json, String>)
    ensures
        outcome_ok(r, msg_out(json_style(*o), m.model(), depth as nat)),
    decreases depth, 5int,
{
    proof {
        m.lemma_model();
    }
    let name = m.desc.full_name();
    assert(name@ == full_name_of(m.model()));
    if !is_well_known_type(name) {
        return plain_json(m, o, depth);
    }
    let n = name.to_owned();
    if n == "google.protobuf.Empty".to_owned() {
        let r = Json::Object(Vec::new());
        assert(r.model() == JsonModel::Object(seq![]));
        Ok(r)
    } else if n == "google.protobuf.Timestamp".to_owned() {
        let seconds = read_i64(m, "seconds");
        let nanos = read_i32(m, "nanos");
        match rfc3339(seconds, nanos as u32) {
            Some(s) => Ok(Json::Str(s)),
            None => Err(err("timestamp out of range")),
        }
    } else if n == "google.protobuf.Duration".to_owned() {
        Ok(Json::Str(duration_string(read_i64(m, "seconds"), read_i32(m, "nanos"))))
    } else if n == "google.protobuf.FieldMask".to_owned() {
        Ok(field_mask_json(m))
    } else if n == "google.protobuf.Struct".to_owned() {
        struct_json(m, o, depth)
    } else if n == "google.protobuf.ListValue".to_owned() {
        list_json(m, o, depth)
    } else if n == "google.protobuf.Value".to_owned() {
        dynamic_value_json(m, o, depth)
    } else if n == "google.protobuf.Any".to_owned() {
        any_json(m, o, depth)
    } else {
        wrapper_json(m, o)
    }
}

/// The settings of [`SerializeOptions::new`]: 64-bit integers as strings,
/// enum names, JSON names, defaults skipped.
pub open spec fn default_json_style() -> JsonStyle {
    JsonStyle { stringify_64: true, enum_numbers: false, proto_names: false, skip_defaults: true }
}

impl DynamicMessage {
    /// The message as proto3 JSON with the default settings.
    pub fn serialize(&self) -> (r: Result<Json, String>)
        ensures
            outcome_ok(r, msg_out(default_json_style(), self.model(), JSON_DEPTH_LIMIT as nat)),
    {
        let o = SerializeOptions::new();
        assert(json_style(o) == default_json_style());
        message_json(self, &o, JSON_DEPTH_LIMIT)
    }

    /// The message as proto3 JSON with `options`. Fails when a stored
    /// value does not fit its field, a timestamp is out of range, an `Any`
    /// payload cannot be resolved or decoded, a `Value` holds a non-finite
    /// number, or messages nest more than [`JSON_DEPTH_LIMIT`] deep.
    pub fn serialize_with_options(&self, options: &SerializeOptions) -> (r: Result<Json, String>)
        ensures
            outcome_ok(r, msg_out(json_style(*options), self.model(), JSON_DEPTH_LIMIT as nat)),
    {
        message_json(self, options, JSON_DEPTH_LIMIT)
    }
}

// ── reading JSON ────────────────────────────────────────────────────────

/// The URL-safe base64 alphabet: the standard one with `-` and `_` for
/// `+` and `/`.
pub open spec fn b64_url_digit(v: int) -> char {
    if v == 62 {
        '-'
    } else if v == 63 {
        '_'
    } else {
        b64_digit(v)
    }
}

/// URL-safe base64 with `=` padding.
pub open spec fn base64_url(b: Seq<u8>) -> Seq<char>
    decreases b.len(),
{
    if b.len() == 0 {
        seq![]
    } else {
        let b0 = b[0] as int;
        let b1 = if b.len() > 1 { b[1] as int } else { 0 };
        let b2 = if b.len() > 2 { b[2] as int } else { 0 };
        if b.len() == 1 {
            seq![b64_url_digit(b0 / 4), b64_url_digit((b0 % 4) * 16), '=', '=']
        } else if b.len() == 2 {
            seq![
                b64_url_digit(b0 / 4),
                b64_url_digit((b0 % 4) * 16 + b1 / 16),
                b64_url_digit((b1 % 16) * 4),
                '=',
            ]
        } else {
            seq![
                b64_url_digit(b0 / 4),
                b64_url_digit((b0 % 4) * 16 + b1 / 16),
                b64_url_digit((b1 % 16) * 4 + b2 / 64),
                b64_url_digit(b2 % 64),
            ] + base64_url(b.skip(3))
        }
    }
}

/// The bytes of a sequence of ASCII characters.
pub open spec fn ascii_of(cs: Seq<char>) -> Seq<u8> {
    cs.map_values(|c: char| c as u8)
}

/// What standard-alphabet, padded base64 decoding of `s` gives: the bytes
/// whose encoding `s` is, and nothing when `s` is no encoding (padding
/// must be canonical and unused bits zero, so each text encodes at most
/// one byte sequence).
pub open spec fn b64_standard_decoded(s: Seq<u8>) -> Option<Seq<u8>> {
    if exists|b: Seq<u8>| #[trigger] ascii_of(base64_std(b)) == s {
        Some(choose|b: Seq<u8>| #[trigger] ascii_of(base64_std(b)) == s)
    } else {
        None
    }
}

/// What URL-safe, padded base64 decoding of `s` gives (see
/// [`b64_standard_decoded`]).
pub open spec fn b64_url_decoded(s: Seq<u8>) -> Option<Seq<u8>> {
    if exists|b: Seq<u8>| #[trigger] ascii_of(base64_url(b)) == s {
        Some(choose|b: Seq<u8>| #[trigger] ascii_of(base64_url(b)) == s)
    } else {
        None
    }
}

/// `base64::engine::general_purpose::STANDARD.decode`: succeeds exactly on
/// the canonical padded encoding of some bytes, and gives those bytes.
#[verifier::external_body]
fn base64_decode_standard(s: &[u8]) -> (r: Option<Vec<u8>>)
    ensures
        match r {
            Some(b) => b64_standard_decoded(s@) == Some(b@),
            None => b64_standard_decoded(s@) is None,
        },
{
    base64::engine::general_purpose::STANDARD.decode(s).ok()
}

/// `base64::engine::general_purpose::URL_SAFE.decode`: as the standard
/// decoding, with the URL-safe alphabet.
#[verifier::external_body]
fn base64_decode_url(s: &[u8]) -> (r: Option<Vec<u8>>)
    ensures
        match r {
            Some(b) => b64_url_decoded(s@) == Some(b@),
            None => b64_url_decoded(s@) is None,
        },
{
    base64::engine::general_purpose::URL_SAFE.decode(s).ok()
}

/// The instant (UTC seconds and sub-second nanos) an RFC 3339 timestamp
/// names, as `chrono` parses it.
pub uninterp spec fn rfc3339_instant(s: Seq<char>) -> Option<(i64, u32)>;

/// `DateTime::parse_from_rfc3339(s)` converted to UTC, as `(timestamp(),
/// timestamp_subsec_nanos())`.
#[verifier::external_body]
fn parse_rfc3339(s: &str) -> (r: Option<(i64, u32)>)
    ensures
        r == rfc3339_instant(s@),
{
    chrono::DateTime::parse_from_rfc3339(s).ok().map(|d| {
        let u = d.with_timezone(&chrono::Utc);
        (u.timestamp(), u.timestamp_subsec_nanos())
    })
}

/// Decimal integer text (an optional sign, then digits, as `str::parse`
/// reads integers): the sign and the magnitude; `None` if malformed or
/// above `u64::MAX`.
pub open spec fn decimal_of(cs: Seq<char>) -> Option<(bool, u64)> {
    if cs.len() > 0 && cs[0] == '-' {
        if cs.len() > 1 && cs[1] == '+' {
            None
        } else {
            match crate::literal::spec_from_str_radix(cs.skip(1), 10) {
                Some(v) => Some((true, v as u64)),
                None => None,
            }
        }
    } else {
        match crate::literal::spec_from_str_radix(cs, 10) {
            Some(v) => Some((false, v as u64)),
            None => None,
        }
    }
}

fn parse_decimal(s: &String) -> (r: Option<(bool, u64)>)
    ensures
        r == decimal_of(s@),
{
    let cs = crate::text::chars_of(s.as_str());
    proof {
        assert(cs@.skip(0) =~= cs@);
    }
    if cs.len() > 0 && cs[0] == '-' {
        if cs.len() > 1 && cs[1] == '+' {
            return None;
        }
        match crate::literal::from_str_radix(&cs, 1, 10) {
            Some(v) => Some((true, v)),
            None => None,
        }
    } else {
        match crate::literal::from_str_radix(&cs, 0, 10) {
            Some(v) => Some((false, v)),
            None => None,
        }
    }
}

/// A sign and magnitude as a signed integer of at most `min_mag` below
/// and `max` above zero.
pub open spec fn signed_within(v: (bool, u64), min_mag: u64, max: u64) -> Option<i64> {
    if v.0 {
        if v.1 > min_mag {
            None
        } else {
            Some((-(v.1 as int)) as i64)
        }
    } else if v.1 > max {
        None
    } else {
        Some(v.1 as i64)
    }
}

fn signed_in(v: (bool, u64), min_mag: u64, max: u64) -> (r: Option<i64>)
    requires
        min_mag <= 0x8000_0000_0000_0000,
        max <= 0x7fff_ffff_ffff_ffff,
    ensures
        r == signed_within(v, min_mag, max),
{
    if v.0 {
        if v.1 > min_mag {
            None
        } else if v.1 == 0x8000_0000_0000_0000 {
            Some(i64::MIN)
        } else {
            Some(-(v.1 as i64))
        }
    } else if v.1 > max {
        None
    } else {
        Some(v.1 as i64)
    }
}

fn fail(prefix: &str, s: &str) -> (r: String)
    ensures
        r@ == prefix@ + s@,
{
    let mut m = prefix.to_owned();
    m.push_str(s);
    m
}

/// An integer given by its sign and magnitude, as a value of integer
/// kind `k`, if it is in range.
pub open spec fn integer_in(k: KindRef, neg: bool, mag: u64) -> Option<ValueModel> {
    match k {
        KindRef::Uint32 | KindRef::Fixed32 | KindRef::Uint64 | KindRef::Fixed64 => if neg && mag != 0 {
            None
        } else {
            match k {
                KindRef::Uint64 | KindRef::Fixed64 => Some(ValueModel::U64(mag)),
                _ => if mag > 0xffff_ffff {
                    None
                } else {
                    Some(ValueModel::U32(mag as u32))
                },
            }
        },
        KindRef::Int64 | KindRef::Sint64 | KindRef::Sfixed64 => match signed_within(
            (neg, mag),
            0x8000_0000_0000_0000,
            0x7fff_ffff_ffff_ffff,
        ) {
            Some(v) => Some(ValueModel::I64(v)),
            None => None,
        },
        _ => match signed_within((neg, mag), 0x8000_0000, 0x7fff_ffff) {
            Some(v) => Some(ValueModel::I32(v as i32)),
            None => None,
        },
    }
}

/// A JSON value read as a value of integer kind `k`: a number (one
/// written with a fraction or exponent converted as Rust's `as` does), or
/// a decimal string.
pub open spec fn json_integer(k: KindRef, j: JsonModel) -> Option<ValueModel> {
    match j {
        JsonModel::Number(n) => match n.value {
            NumberValue::Uint(v) => integer_in(k, false, v),
            NumberValue::Int(v) => if v < 0 {
                integer_in(k, true, (-v) as u64)
            } else {
                integer_in(k, false, v as u64)
            },
            NumberValue::Float(_) => Some(
                match k {
                    KindRef::Int64 | KindRef::Sint64 | KindRef::Sfixed64 => ValueModel::I64(n.as_i64),
                    KindRef::Uint64 | KindRef::Fixed64 => ValueModel::U64(n.as_u64),
                    KindRef::Uint32 | KindRef::Fixed32 => ValueModel::U32(n.as_u32),
                    _ => ValueModel::I32(n.as_i32),
                },
            ),
        },
        JsonModel::Str(s) => if (k is Uint32 || k is Fixed32 || k is Uint64 || k is Fixed64) && s.len()
            > 0 && s[0] == '-' {
            None
        } else {
            match decimal_of(s) {
                Some((neg, mag)) => integer_in(k, neg, mag),
                None => None,
            }
        },
        _ => None,
    }
}

/// The (`f32`, `f64`) bits a JSON value gives a float field: a number's
/// conversions, the special strings, or a literal from `floats`.
pub open spec fn json_float_bits(j: JsonModel, floats: Seq<(String, u32, u64)>) -> Option<(u32, u64)> {
    match j {
        JsonModel::Number(n) => Some((n.as_f32, n.as_f64)),
        JsonModel::Str(s) => if s == "NaN"@ {
            Some((0x7fc0_0000u32, 0x7ff8_0000_0000_0000u64))
        } else if s == "Infinity"@ {
            Some((0x7f80_0000u32, 0x7ff0_0000_0000_0000u64))
        } else if s == "-Infinity"@ {
            Some((0xff80_0000u32, 0xfff0_0000_0000_0000u64))
        } else {
            crate::textparse::float_bits(floats, s)
        },
        _ => None,
    }
}

/// A single JSON value read as a value of scalar or enum kind `k`.
pub open spec fn scalar_of_json(
    pool: PoolInner,
    k: KindRef,
    j: JsonModel,
    floats: Seq<(String, u32, u64)>,
) -> Option<ValueModel> {
    match k {
        KindRef::Bool => match j {
            JsonModel::Bool(b) => Some(ValueModel::Bool(b)),
            JsonModel::Str(s) => if s == "true"@ {
                Some(ValueModel::Bool(true))
            } else if s == "false"@ {
                Some(ValueModel::Bool(false))
            } else {
                None
            },
            _ => None,
        },
        KindRef::Float | KindRef::Double => match json_float_bits(j, floats) {
            Some(b) => Some(
                if k == KindRef::Float {
                    ValueModel::F32(b.0)
                } else {
                    ValueModel::F64(b.1)
                },
            ),
            None => None,
        },
        KindRef::String => match j {
            JsonModel::Str(s) => Some(ValueModel::Str(s)),
            _ => None,
        },
        KindRef::Bytes => match j {
            JsonModel::Str(s) => match b64_standard_decoded(vstd::utf8::encode_utf8(s)) {
                Some(b) => Some(ValueModel::Bytes(b)),
                None => match b64_url_decoded(vstd::utf8::encode_utf8(s)) {
                    Some(b) => Some(ValueModel::Bytes(b)),
                    None => None,
                },
            },
            _ => None,
        },
        KindRef::Enum(e) => match j {
            JsonModel::Str(s) => match crate::defaults::enum_value_by_name(
                pool.enums@[e as int].values@,
                s,
            ) {
                Some(n) => Some(ValueModel::EnumNumber(n)),
                None => None,
            },
            JsonModel::Number(n) => Some(
                ValueModel::EnumNumber(
                    match n.value {
                        NumberValue::Uint(v) => crate::wire::spec_i32_of_bits(v as nat) as i32,
                        NumberValue::Int(v) => crate::wire::spec_i32_of_bits(
                            crate::wire::spec_u64_of_int(v as int),
                        ) as i32,
                        NumberValue::Float(_) => n.as_i32,
                    },
                ),
            ),
            _ => None,
        },
        KindRef::Message(_) => None,
        _ => json_integer(k, j),
    }
}

/// A single JSON value read as a value of scalar or enum kind `k`.
fn scalar_from_json(pool: &DescriptorPool, k: KindRef, j: &Json, floats: &FloatLiterals) -> (r: Result<Value, String>)
    requires
        kind_ok(k, pool.view_inner().messages@.len(), pool.view_inner().enums@.len()),
    ensures
        match r {
            Ok(v) => scalar_of_json(pool.view_inner(), k, j.model(), floats.entries@) == Some(v.model()),
            Err(_) => scalar_of_json(pool.view_inner(), k, j.model(), floats.entries@) is None,
        },
{
    match k {
        KindRef::Bool => match j {
            Json::Bool(b) => Ok(Value::Bool(*b)),
            Json::Str(s) => {
                if *s == "true".to_owned() {
                    Ok(Value::Bool(true))
                } else if *s == "false".to_owned() {
                    Ok(Value::Bool(false))
                } else {
                    Err(fail("invalid bool string ", s.as_str()))
                }
            },
            _ => Err(err("expected a bool")),
        },
        KindRef::Int32 | KindRef::Sint32 | KindRef::Sfixed32 | KindRef::Int64 | KindRef::Sint64
        | KindRef::Sfixed64 | KindRef::Uint32 | KindRef::Fixed32 | KindRef::Uint64 | KindRef::Fixed64 => {
            let wide = match k {
                KindRef::Int64 | KindRef::Sint64 | KindRef::Sfixed64 | KindRef::Uint64 | KindRef::Fixed64 => true,
                _ => false,
            };
            let unsigned = match k {
                KindRef::Uint32 | KindRef::Fixed32 | KindRef::Uint64 | KindRef::Fixed64 => true,
                _ => false,
            };
            let (neg, mag): (bool, u64) = match j {
                Json::Number(n) => match n.value {
                    NumberValue::Uint(v) => (false, v),
                    NumberValue::Int(v) => {
                        if v < 0 {
                            (true, magnitude(v))
                        } else {
                            (false, v as u64)
                        }
                    },
                    NumberValue::Float(_) => {
                        return Ok(match k {
                            KindRef::Int64 | KindRef::Sint64 | KindRef::Sfixed64 => Value::I64(n.as_i64),
                            KindRef::Uint64 | KindRef::Fixed64 => Value::U64(n.as_u64),
                            KindRef::Uint32 | KindRef::Fixed32 => Value::U32(n.as_u32),
                            _ => Value::I32(n.as_i32),
                        });
                    },
                },
                Json::Str(s) => {
                    if unsigned {
                        let cs = crate::text::chars_of(s.as_str());
                        if cs.len() > 0 && cs[0] == '-' {
                            return Err(fail("invalid integer string ", s.as_str()));
                        }
                    }
                    match parse_decimal(s) {
                        Some(p) => p,
                        None => {
                            return Err(fail("invalid integer string ", s.as_str()));
                        },
                    }
                },
                _ => {
                    return Err(err("expected an integer"));
                },
            };
            if unsigned {
                if neg && mag != 0 {
                    return Err(err("integer out of range"));
                }
                if wide {
                    Ok(Value::U64(mag))
                } else if mag > 0xffff_ffff {
                    Err(err("uint32 out of range"))
                } else {
                    Ok(Value::U32(mag as u32))
                }
            } else if wide {
                match signed_in((neg, mag), 0x8000_0000_0000_0000, 0x7fff_ffff_ffff_ffff) {
                    Some(v) => Ok(Value::I64(v)),
                    None => Err(err("int64 out of range")),
                }
            } else {
                match signed_in((neg, mag), 0x8000_0000, 0x7fff_ffff) {
                    Some(v) => Ok(Value::I32(v as i32)),
                    None => Err(err("int32 out of range")),
                }
            }
        },
        KindRef::Float | KindRef::Double => {
            let single = match k {
                KindRef::Float => true,
                _ => false,
            };
            let bits: (u32, u64) = match j {
                Json::Number(n) => (n.as_f32, n.as_f64),
                Json::Str(s) => {
                    if *s == "NaN".to_owned() {
                        (0x7fc0_0000u32, 0x7ff8_0000_0000_0000u64)
                    } else if *s == "Infinity".to_owned() {
                        (0x7f80_0000u32, 0x7ff0_0000_0000_0000u64)
                    } else if *s == "-Infinity".to_owned() {
                        (0xff80_0000u32, 0xfff0_0000_0000_0000u64)
                    } else {
                        match floats.lookup(&crate::text::chars_of(s.as_str())) {
                            Some(b) => b,
                            None => {
                                return Err(fail("invalid float string ", s.as_str()));
                            },
                        }
                    }
                },
                _ => {
                    return Err(err("expected a number"));
                },
            };
            if single {
                Ok(Value::F32(bits.0))
            } else {
                Ok(Value::F64(bits.1))
            }
        },
        KindRef::String => match j {
            Json::Str(s) => Ok(Value::String(s.clone())),
            _ => Err(err("expected a string")),
        },
        KindRef::Bytes => match j {
            Json::Str(s) => match base64_decode_standard(s.as_str().as_bytes()) {
                Some(b) => Ok(Value::Bytes(b)),
                None => match base64_decode_url(s.as_str().as_bytes()) {
                    Some(b) => Ok(Value::Bytes(b)),
                    None => Err(err("invalid base64")),
                },
            },
            _ => Err(err("expected a base64 string")),
        },
        KindRef::Enum(e) => match j {
            Json::Str(s) => {
                let inner = pool.inner_ref();
                match crate::defaults::find_enum_value(&inner.enums[e as usize].values, s) {
                    Some(n) => Ok(Value::EnumNumber(n)),
                    None => Err(fail("unknown enum variant ", s.as_str())),
                }
            },
            Json::Number(n) => match n.value {
                NumberValue::Uint(v) => Ok(Value::EnumNumber(crate::wire::i32_of_bits(v))),
                NumberValue::Int(v) => Ok(Value::EnumNumber(crate::wire::i32_of_bits(crate::wire::u64_of_i64(v)))),
                NumberValue::Float(_) => Ok(Value::EnumNumber(n.as_i32)),
            },
            _ => Err(err("expected an enum name or number")),
        },
        KindRef::Message(_) => Err(err("expected a scalar")),
    }
}

/// A JSON object key read as a map key of kind `k`: strings as they are,
/// `true` (anything else is `false`), and decimal integers in range.
pub open spec fn json_map_key(s: Seq<char>, k: KindRef) -> Option<KeyModel> {
    match k {
        KindRef::String => Some(KeyModel::Str(s)),
        KindRef::Bool => Some(KeyModel::Bool(s == "true"@)),
        KindRef::Int32 | KindRef::Sint32 | KindRef::Sfixed32 => match decimal_of(s) {
            Some(p) => match signed_within(p, 0x8000_0000, 0x7fff_ffff) {
                Some(v) => Some(KeyModel::I32(v as i32)),
                None => None,
            },
            None => None,
        },
        KindRef::Int64 | KindRef::Sint64 | KindRef::Sfixed64 => match decimal_of(s) {
            Some(p) => match signed_within(p, 0x8000_0000_0000_0000, 0x7fff_ffff_ffff_ffff) {
                Some(v) => Some(KeyModel::I64(v)),
                None => None,
            },
            None => None,
        },
        KindRef::Uint32 | KindRef::Fixed32 | KindRef::Uint64 | KindRef::Fixed64 => if s.len() > 0
            && s[0] == '-' {
            None
        } else {
            match decimal_of(s) {
                Some((_, v)) => match k {
                    KindRef::Uint64 | KindRef::Fixed64 => Some(KeyModel::U64(v)),
                    _ => if v <= 0xffff_ffff {
                        Some(KeyModel::U32(v as u32))
                    } else {
                        None
                    },
                },
                None => None,
            }
        },
        _ => None,
    }
}

/// A JSON object key read as a map key of kind `k`.
fn map_key_from(s: &String, k: KindRef) -> (r: Option<MapKey>)
    ensures
        match r {
            Some(key) => json_map_key(s@, k) == Some(key.model()),
            None => json_map_key(s@, k) is None,
        },
{
    match k {
        KindRef::String => Some(MapKey::String(s.clone())),
        KindRef::Bool => Some(MapKey::Bool(*s == "true".to_owned())),
        KindRef::Int32 | KindRef::Sint32 | KindRef::Sfixed32 => match parse_decimal(s) {
            Some(p) => match signed_in(p, 0x8000_0000, 0x7fff_ffff) {
                Some(v) => Some(MapKey::I32(v as i32)),
                None => None,
            },
            None => None,
        },
        KindRef::Int64 | KindRef::Sint64 | KindRef::Sfixed64 => match parse_decimal(s) {
            Some(p) => match signed_in(p, 0x8000_0000_0000_0000, 0x7fff_ffff_ffff_ffff) {
                Some(v) => Some(MapKey::I64(v)),
                None => None,
            },
            None => None,
        },
        KindRef::Uint32 | KindRef::Fixed32 | KindRef::Uint64 | KindRef::Fixed64 => {
            let cs = crate::text::chars_of(s.as_str());
            if cs.len() > 0 && cs[0] == '-' {
                return None;
            }
            match parse_decimal(s) {
                Some((_, v)) => match k {
                    KindRef::Uint64 | KindRef::Fixed64 => Some(MapKey::U64(v)),
                    _ => if v <= 0xffff_ffff {
                        Some(MapKey::U32(v as u32))
                    } else {
                        None
                    },
                },
                None => None,
            }
        },
        _ => None,
    }
}

/// Whether two map keys are equal.
fn same_key(a: &MapKey, b: &MapKey) -> (r: bool)
    ensures
        r == (a.model() == b.model()),
{
    match (a, b) {
        (MapKey::Bool(x), MapKey::Bool(y)) => *x == *y,
        (MapKey::I32(x), MapKey::I32(y)) => *x == *y,
        (MapKey::I64(x), MapKey::I64(y)) => *x == *y,
        (MapKey::U32(x), MapKey::U32(y)) => *x == *y,
        (MapKey::U64(x), MapKey::U64(y)) => *x == *y,
        (MapKey::String(x), MapKey::String(y)) => *x == *y,
        _ => false,
    }
}

/// Store `key => v` in `es`, replacing an entry with an equal key.
fn put_entry(es: &mut Vec<(MapKey, Value)>, key: MapKey, v: Value)
    ensures
        entry_models(final(es)@) == crate::message::entries_put(
            entry_models(old(es)@),
            key.model(),
            v.model(),
        ),
{
    proof {
        lemma_entry_models_len(es@);
    }
    let ghost before = es@;
    let mut i: usize = 0;
    while i < es.len()
        invariant
            i <= es@.len(),
            es@ == before,
            before == old(es)@,
            entry_models(before).len() == before.len(),
            forall|j: int|
                0 <= j < before.len() ==> #[trigger] entry_models(before)[j] == (
                    before[j].0.model(),
                    before[j].1.model(),
                ),
            forall|j: int| 0 <= j < i ==> #[trigger] before[j].0.model() != key.model(),
        decreases es@.len() - i,
    {
        if same_key(&es[i].0, &key) {
            proof {
                crate::message::lemma_key_index(entry_models(before), key.model(), i as int);
            }
            let ghost km = key.model();
            let ghost vm = v.model();
            es.remove(i);
            es.insert(i, (key, v));
            proof {
                lemma_entry_models_len(es@);
                assert(es@ =~= before.update(i as int, es@[i as int]));
                assert(entry_models(es@) =~= entry_models(before).update(i as int, (km, vm)));
                assert(crate::message::key_index(entry_models(before), km) == i);
                assert(entry_models(es@) == crate::message::entries_put(entry_models(before), km, vm));
            }
            return;
        }
        i = i + 1;
    }
    proof {
        crate::message::lemma_key_index(entry_models(before), key.model(), before.len() as int);
    }
    let ghost km = key.model();
    let ghost vm = v.model();
    es.push((key, v));
    proof {
        lemma_entry_models_len(es@);
        assert(entry_models(es@) =~= entry_models(before).push((km, vm)));
    }
}

// ── reading JSON, as functions of the JSON model ────────────────────────

/// The message definition named `name` in `pool`, if there is one.
pub open spec fn message_named(pool: PoolInner, name: Seq<char>) -> Option<u32> {
    match crate::pool::table_get(pool.names@, crate::text::spec_strip_dot(name)) {
        Some(crate::pool::Definition::Message(i)) => Some(i),
        _ => None,
    }
}

/// `mp` with field `name` of message `msg` set to `v`, when the message
/// has such a field and `v` fits it; else `mp` unchanged.
pub open spec fn put_named(
    pool: PoolInner,
    msg: u32,
    mp: Map<u32, SlotModel>,
    name: Seq<char>,
    v: ValueModel,
) -> Map<u32, SlotModel> {
    match crate::message::entry_by_name(fields_of(pool, msg), name) {
        Some(f) => if crate::message::value_fits(pool, f, v) {
            crate::message::set_map(pool, msg, f, mp, v)
        } else {
            mp
        },
        None => mp,
    }
}

/// Messages inside `v` (itself, list items, map values) are of `pool`.
pub open spec fn shares_pool(v: ValueModel, pool: PoolInner) -> bool {
    match v {
        ValueModel::Message(m) => m.pool == pool,
        ValueModel::List(items) => forall|i: int|
            0 <= i < items.len() ==> (#[trigger] items[i] matches ValueModel::Message(m) ==> m.pool
                == pool),
        ValueModel::Mapping(es) => forall|i: int|
            0 <= i < es.len() ==> (#[trigger] es[i].1 matches ValueModel::Message(m) ==> m.pool
                == pool),
        _ => true,
    }
}

/// The field of message `msg` a JSON member name selects: by JSON name
/// first, then by name.
pub open spec fn member_field(pool: PoolInner, msg: u32, key: Seq<char>) -> Option<FieldEntry> {
    match crate::textparse::first_json_named(fields_of(pool, msg), key) {
        Some(f) => Some(f),
        None => first_named(fields_of(pool, msg), key),
    }
}

/// The paths a `FieldMask` text gives, as string values.
pub open spec fn mask_values(s: Seq<char>) -> Seq<ValueModel> {
    Seq::new(
        mask_scan(s, 0, 0).len(),
        |k: int| ValueModel::Str(crate::case::spec_snake(mask_scan(s, 0, 0)[k])),
    )
}

/// The `@type` URL, the `value` member and the other members of an `Any`
/// object, read from member `i` on after `url`, `value` and `rest` (`None`
/// if a `@type` is not a string).
pub open spec fn any_parts(
    ms: Seq<(Seq<char>, JsonModel)>,
    url: Option<Seq<char>>,
    value: Option<JsonModel>,
    rest: Seq<(Seq<char>, JsonModel)>,
    i: int,
) -> Option<(Option<Seq<char>>, Option<JsonModel>, Seq<(Seq<char>, JsonModel)>)>
    decreases ms.len() - i,
{
    if i < 0 || i >= ms.len() {
        Some((url, value, rest))
    } else if ms[i].0 == "@type"@ {
        match ms[i].1 {
            JsonModel::Str(s) => any_parts(ms, Some(s), value, rest, i + 1),
            _ => None,
        }
    } else {
        any_parts(ms, url, if ms[i].0 == "value"@ {
            Some(ms[i].1)
        } else {
            value
        }, rest.push(ms[i]), i + 1)
    }
}

/// A JSON value read as a value of kind `k`, messages nested at most
/// `depth` deep.
pub open spec fn de_element(
    pool: PoolInner,
    k: KindRef,
    j: JsonModel,
    deny: bool,
    fl: Seq<(String, u32, u64)>,
    depth: nat,
) -> Option<ValueModel>
    decreases depth, 0nat, 0nat,
{
    match k {
        KindRef::Message(i) => if depth == 0 {
            None
        } else {
            match de_message(pool, i, j, deny, fl, (depth - 1) as nat) {
                Some(mp) => Some(ValueModel::Message(crate::textparse::message_from(pool, i, mp))),
                None => None,
            }
        },
        _ => scalar_of_json(pool, k, j, fl),
    }
}

/// The members of a JSON object from member `i` on read as map entries
/// into `acc`.
pub open spec fn de_entries(
    pool: PoolInner,
    kk: KindRef,
    vk: KindRef,
    ms: Seq<(Seq<char>, JsonModel)>,
    deny: bool,
    fl: Seq<(String, u32, u64)>,
    depth: nat,
    acc: Seq<(KeyModel, ValueModel)>,
    i: int,
) -> Option<Seq<(KeyModel, ValueModel)>>
    decreases depth, 1nat, ms.len() - i,
{
    if i < 0 || i >= ms.len() {
        Some(acc)
    } else {
        match json_map_key(ms[i].0, kk) {
            None => None,
            Some(key) => match de_element(pool, vk, ms[i].1, deny, fl, depth) {
                None => None,
                Some(v) => de_entries(
                    pool,
                    kk,
                    vk,
                    ms,
                    deny,
                    fl,
                    depth,
                    crate::message::entries_put(acc, key, v),
                    i + 1,
                ),
            },
        }
    }
}

/// The items of a JSON array from item `i` on read as values of kind `k`
/// after `acc`.
pub open spec fn de_items(
    pool: PoolInner,
    k: KindRef,
    items: Seq<JsonModel>,
    deny: bool,
    fl: Seq<(String, u32, u64)>,
    depth: nat,
    acc: Seq<ValueModel>,
    i: int,
) -> Option<Seq<ValueModel>>
    decreases depth, 1nat, items.len() - i,
{
    if i < 0 || i >= items.len() {
        Some(acc)
    } else {
        match de_element(pool, k, items[i], deny, fl, depth) {
            None => None,
            Some(v) => de_items(pool, k, items, deny, fl, depth, acc.push(v), i + 1),
        }
    }
}

/// A JSON value read as the value of field `f`.
pub open spec fn de_field(
    pool: PoolInner,
    f: FieldEntry,
    j: JsonModel,
    deny: bool,
    fl: Seq<(String, u32, u64)>,
    depth: nat,
) -> Option<ValueModel>
    decreases depth, 2nat, 0nat,
{
    if field_is_map(pool, f) {
        match map_kinds(pool, f) {
            None => None,
            Some((kk, vk)) => match j {
                JsonModel::Object(ms) => match de_entries(pool, kk, vk, ms, deny, fl, depth, seq![], 0) {
                    Some(es) => Some(ValueModel::Mapping(es)),
                    None => None,
                },
                _ => None,
            },
        }
    } else if f.cardinality == Cardinality::Repeated {
        match j {
            JsonModel::Array(items) => match de_items(pool, f.kind, items, deny, fl, depth, seq![], 0) {
                Some(vs) => Some(ValueModel::List(vs)),
                None => None,
            },
            _ => None,
        }
    } else {
        de_element(pool, f.kind, j, deny, fl, depth)
    }
}

/// The members of a JSON object from member `i` on read as fields of
/// message `msg` into `mp`.
pub open spec fn de_plain(
    pool: PoolInner,
    msg: u32,
    ms: Seq<(Seq<char>, JsonModel)>,
    deny: bool,
    fl: Seq<(String, u32, u64)>,
    depth: nat,
    mp: Map<u32, SlotModel>,
    i: int,
) -> Option<Map<u32, SlotModel>>
    decreases depth, 3nat, ms.len() - i,
{
    if i < 0 || i >= ms.len() {
        Some(mp)
    } else {
        match member_field(pool, msg, ms[i].0) {
            Some(f) => match de_field(pool, f, ms[i].1, deny, fl, depth) {
                Some(v) => de_plain(
                    pool,
                    msg,
                    ms,
                    deny,
                    fl,
                    depth,
                    crate::message::set_map(pool, msg, f, mp, v),
                    i + 1,
                ),
                None => None,
            },
            None => if deny {
                None
            } else {
                de_plain(pool, msg, ms, deny, fl, depth, mp, i + 1)
            },
        }
    }
}

/// A scalar wrapper message `msg` read from its bare value.
pub open spec fn de_wrapper(
    pool: PoolInner,
    msg: u32,
    j: JsonModel,
    deny: bool,
    fl: Seq<(String, u32, u64)>,
    depth: nat,
) -> Option<Map<u32, SlotModel>>
    decreases depth, 4nat, 0nat,
{
    match crate::message::entry_by_name(fields_of(pool, msg), "value"@) {
        None => None,
        Some(f) => match de_element(pool, f.kind, j, deny, fl, depth) {
            None => None,
            Some(v) => if crate::message::value_fits(pool, f, v) {
                Some(crate::message::set_map(pool, msg, f, Map::empty(), v))
            } else {
                None
            },
        },
    }
}

/// A `google.protobuf.Value` message `msg` read from any JSON value.
pub open spec fn de_dynamic(
    pool: PoolInner,
    msg: u32,
    j: JsonModel,
    deny: bool,
    fl: Seq<(String, u32, u64)>,
    depth: nat,
) -> Option<Map<u32, SlotModel>>
    decreases depth, 4nat, 0nat,
{
    let e = Map::<u32, SlotModel>::empty();
    match j {
        JsonModel::Null => Some(put_named(pool, msg, e, "null_value"@, ValueModel::EnumNumber(0))),
        JsonModel::Bool(b) => Some(put_named(pool, msg, e, "bool_value"@, ValueModel::Bool(b))),
        JsonModel::Number(n) => Some(put_named(pool, msg, e, "number_value"@, ValueModel::F64(n.as_f64))),
        JsonModel::Float64(b) => Some(put_named(pool, msg, e, "number_value"@, ValueModel::F64(b))),
        JsonModel::Str(s) => Some(put_named(pool, msg, e, "string_value"@, ValueModel::Str(s))),
        JsonModel::Array(_) => match message_named(pool, "google.protobuf.ListValue"@) {
            None => None,
            Some(li) => if depth == 0 {
                None
            } else {
                match de_list(pool, li, j, deny, fl, (depth - 1) as nat) {
                    Some(mp) => Some(
                        put_named(
                            pool,
                            msg,
                            e,
                            "list_value"@,
                            ValueModel::Message(crate::textparse::message_from(pool, li, mp)),
                        ),
                    ),
                    None => None,
                }
            },
        },
        JsonModel::Object(_) => match message_named(pool, "google.protobuf.Struct"@) {
            None => None,
            Some(si) => if depth == 0 {
                None
            } else {
                match de_struct(pool, si, j, deny, fl, (depth - 1) as nat) {
                    Some(mp) => Some(
                        put_named(
                            pool,
                            msg,
                            e,
                            "struct_value"@,
                            ValueModel::Message(crate::textparse::message_from(pool, si, mp)),
                        ),
                    ),
                    None => None,
                }
            },
        },
        _ => None,
    }
}

/// The members of a JSON object from member `i` on read as `Struct`
/// entries, whose values are `Value` messages `vi`, into `acc`.
pub open spec fn de_struct_entries(
    pool: PoolInner,
    vi: u32,
    ms: Seq<(Seq<char>, JsonModel)>,
    deny: bool,
    fl: Seq<(String, u32, u64)>,
    depth: nat,
    acc: Seq<(KeyModel, ValueModel)>,
    i: int,
) -> Option<Seq<(KeyModel, ValueModel)>>
    decreases depth, 5nat, ms.len() - i,
{
    if i < 0 || i >= ms.len() {
        Some(acc)
    } else {
        match de_dynamic(pool, vi, ms[i].1, deny, fl, depth) {
            None => None,
            Some(mp) => de_struct_entries(
                pool,
                vi,
                ms,
                deny,
                fl,
                depth,
                crate::message::entries_put(
                    acc,
                    KeyModel::Str(ms[i].0),
                    ValueModel::Message(crate::textparse::message_from(pool, vi, mp)),
                ),
                i + 1,
            ),
        }
    }
}

/// The items of a JSON array from item `i` on read as `Value` messages
/// `vi` after `acc`.
pub open spec fn de_list_values(
    pool: PoolInner,
    vi: u32,
    items: Seq<JsonModel>,
    deny: bool,
    fl: Seq<(String, u32, u64)>,
    depth: nat,
    acc: Seq<ValueModel>,
    i: int,
) -> Option<Seq<ValueModel>>
    decreases depth, 5nat, items.len() - i,
{
    if i < 0 || i >= items.len() {
        Some(acc)
    } else {
        match de_dynamic(pool, vi, items[i], deny, fl, depth) {
            None => None,
            Some(mp) => de_list_values(
                pool,
                vi,
                items,
                deny,
                fl,
                depth,
                acc.push(ValueModel::Message(crate::textparse::message_from(pool, vi, mp))),
                i + 1,
            ),
        }
    }
}

/// A `Struct` message `msg` read from a JSON object.
pub open spec fn de_struct(
    pool: PoolInner,
    msg: u32,
    j: JsonModel,
    deny: bool,
    fl: Seq<(String, u32, u64)>,
    depth: nat,
) -> Option<Map<u32, SlotModel>>
    decreases depth, 4nat, 0nat,
{
    match j {
        JsonModel::Object(ms) => match message_named(pool, "google.protobuf.Value"@) {
            None => None,
            Some(vi) => if depth == 0 {
                None
            } else {
                match de_struct_entries(pool, vi, ms, deny, fl, (depth - 1) as nat, seq![], 0) {
                    Some(es) => Some(put_named(pool, msg, Map::empty(), "fields"@, ValueModel::Mapping(es))),
                    None => None,
                }
            },
        },
        _ => None,
    }
}

/// A `ListValue` message `msg` read from a JSON array.
pub open spec fn de_list(
    pool: PoolInner,
    msg: u32,
    j: JsonModel,
    deny: bool,
    fl: Seq<(String, u32, u64)>,
    depth: nat,
) -> Option<Map<u32, SlotModel>>
    decreases depth, 4nat, 0nat,
{
    match j {
        JsonModel::Array(items) => match message_named(pool, "google.protobuf.Value"@) {
            None => None,
            Some(vi) => if depth == 0 {
                None
            } else {
                match de_list_values(pool, vi, items, deny, fl, (depth - 1) as nat, seq![], 0) {
                    Some(vs) => Some(put_named(pool, msg, Map::empty(), "values"@, ValueModel::List(vs))),
                    None => None,
                }
            },
        },
        _ => None,
    }
}

/// An `Any` message `msg` read from a JSON object with `@type`: the
/// payload, read as the type the URL names, stored encoded.
pub open spec fn de_any(
    pool: PoolInner,
    msg: u32,
    j: JsonModel,
    deny: bool,
    fl: Seq<(String, u32, u64)>,
    depth: nat,
) -> Option<Map<u32, SlotModel>>
    decreases depth, 4nat, 0nat,
{
    match j {
        JsonModel::Object(ms) => match any_parts(ms, None, None, seq![], 0) {
            Some((Some(url), value, rest)) => match message_named(pool, url_tail(url)) {
                None => None,
                Some(ii) => if depth == 0 {
                    None
                } else {
                    let inner = if crate::case::wkt_names().contains(url_tail(url)) {
                        match value {
                            Some(v) => de_message(pool, ii, v, deny, fl, (depth - 1) as nat),
                            None => None,
                        }
                    } else {
                        de_plain(pool, ii, rest, deny, fl, (depth - 1) as nat, Map::empty(), 0)
                    };
                    match inner {
                        Some(mp) => Some(
                            put_named(
                                pool,
                                msg,
                                put_named(pool, msg, Map::empty(), "type_url"@, ValueModel::Str(url)),
                                "value"@,
                                ValueModel::Bytes(
                                    crate::codec::enc_msg(crate::textparse::message_from(pool, ii, mp)),
                                ),
                            ),
                        ),
                        None => None,
                    }
                },
            },
            _ => None,
        },
        _ => None,
    }
}

/// A JSON value read as message `msg`: by its well-known mapping, else
/// from an object of its fields.
pub open spec fn de_message(
    pool: PoolInner,
    msg: u32,
    j: JsonModel,
    deny: bool,
    fl: Seq<(String, u32, u64)>,
    depth: nat,
) -> Option<Map<u32, SlotModel>>
    decreases depth, 6nat, 0nat,
{
    let name = pool.messages@[msg as int].full_name@;
    let e = Map::<u32, SlotModel>::empty();
    if !crate::case::wkt_names().contains(name) {
        match j {
            JsonModel::Object(ms) => de_plain(pool, msg, ms, deny, fl, depth, Map::empty(), 0),
            _ => None,
        }
    } else if name == "google.protobuf.Empty"@ {
        Some(e)
    } else if name == "google.protobuf.Timestamp"@ {
        match j {
            JsonModel::Str(s) => match rfc3339_instant(s) {
                Some((secs, nanos)) => Some(
                    put_named(
                        pool,
                        msg,
                        put_named(pool, msg, e, "seconds"@, ValueModel::I64(secs)),
                        "nanos"@,
                        ValueModel::I32(crate::wire::spec_i32_of_bits(nanos as nat) as i32),
                    ),
                ),
                None => None,
            },
            _ => None,
        }
    } else if name == "google.protobuf.Duration"@ {
        match j {
            JsonModel::Str(s) => match duration_of(s) {
                Some((secs, nanos)) => Some(
                    put_named(
                        pool,
                        msg,
                        put_named(pool, msg, e, "seconds"@, ValueModel::I64(secs)),
                        "nanos"@,
                        ValueModel::I32(nanos),
                    ),
                ),
                None => None,
            },
            _ => None,
        }
    } else if name == "google.protobuf.FieldMask"@ {
        match j {
            JsonModel::Str(s) => Some(put_named(pool, msg, e, "paths"@, ValueModel::List(mask_values(s)))),
            _ => None,
        }
    } else if name == "google.protobuf.Struct"@ {
        de_struct(pool, msg, j, deny, fl, depth)
    } else if name == "google.protobuf.ListValue"@ {
        de_list(pool, msg, j, deny, fl, depth)
    } else if name == "google.protobuf.Value"@ {
        de_dynamic(pool, msg, j, deny, fl, depth)
    } else if name == "google.protobuf.Any"@ {
        de_any(pool, msg, j, deny, fl, depth)
    } else {
        de_wrapper(pool, msg, j, deny, fl, depth)
    }
}

proof fn lemma_json_entry_models_len(s: Seq<(String, Json)>)
    ensures
        json_entry_models(s).len() == s.len(),
        forall|i: int|
            0 <= i < s.len() ==> #[trigger] json_entry_models(s)[i] == (s[i].0@, s[i].1.model()),
    decreases s.len(),
{
    if s.len() > 0 {
        let t = s.subrange(1, s.len() as int);
        lemma_json_entry_models_len(t);
        assert forall|i: int| 0 <= i < s.len() implies #[trigger] json_entry_models(s)[i] == (
        s[i].0@, s[i].1.model()) by {
            if i > 0 {
                assert(json_entry_models(s)[i] == json_entry_models(t)[i - 1]);
                assert(t[i - 1] == s[i]);
            }
        }
    }
}

proof fn lemma_json_models_index(s: Seq<Json>)
    ensures
        json_models(s).len() == s.len(),
        forall|i: int| 0 <= i < s.len() ==> #[trigger] json_models(s)[i] == s[i].model(),
    decreases s.len(),
{
    if s.len() > 0 {
        let t = s.subrange(1, s.len() as int);
        lemma_json_models_index(t);
        assert forall|i: int| 0 <= i < s.len() implies #[trigger] json_models(s)[i] == s[i].model() by {
            if i > 0 {
                assert(json_models(s)[i] == json_models(t)[i - 1]);
                assert(t[i - 1] == s[i]);
            }
        }
    }
}

/// The field `fd` that `d.get_field_by_name(name)` gives is the first so
/// named.
proof fn lemma_named_field(d: &MessageDescriptor, name: Seq<char>, r: Option<FieldDescriptor>)
    requires
        r is Some <==> exists|i: int|
            0 <= i < d.entry().fields@.len() && #[trigger] d.entry().fields@[i].name@ == name,
        r is Some ==> r->0.pool_view() == d.pool_view() && r->0.message() == d.index()
            && r->0.entry().name@ == name && forall|k: int|
            0 <= k < r->0.index() ==> #[trigger] d.entry().fields@[k].name@ != name,
    ensures
        match r {
            Some(f) => crate::message::entry_by_name(fields_of(d.pool_view(), d.index()), name)
                == Some(f.entry()),
            None => crate::message::entry_by_name(fields_of(d.pool_view(), d.index()), name) is None,
        },
{
    let fs = fields_of(d.pool_view(), d.index());
    assert(fs == d.entry().fields@);
    crate::message::lemma_entry_by_name(fs, name);
    if r is Some {
        assert(fs[r->0.index() as int] == r->0.entry());
    }
}

/// Set field `name` of `m` to `v` when `m` has such a field taking such a
/// value.
fn put_by_name(m: &mut DynamicMessage, name: &str, v: Value)
    requires
        old(m).wf(),
        !crate::message::holds_message(v.model()),
    ensures
        final(m).wf(),
        final(m).model().pool == old(m).model().pool,
        final(m).model().index == old(m).model().index,
        crate::message::slot_view(final(m).model().slots) == put_named(
            old(m).model().pool,
            old(m).model().index,
            crate::message::slot_view(old(m).model().slots),
            name@,
            v.model(),
        ),
{
    let ghost vm = v.model();
    let ghost before = m.model().slots;
    let r = m.try_set_field_by_name(name, v);
    proof {
        if r is Ok {
            crate::message::lemma_set_view(
                old(m).model().pool,
                old(m).model().index,
                old(m).named(name@)->0,
                before,
                m.model().slots,
                vm,
            );
        }
    }
}

/// The value of kind `k` a JSON value gives.
fn element_from_json(
    pool: &DescriptorPool,
    k: KindRef,
    j: &Json,
    o: &DeserializeOptions,
    floats: &FloatLiterals,
    depth: u32,
) -> (r: Result<Value, String>)
    requires
        kind_ok(k, pool.view_inner().messages@.len(), pool.view_inner().enums@.len()),
    ensures
        match r {
            Ok(v) => de_element(
                pool.view_inner(),
                k,
                j.model(),
                o.deny_unknown_fields_flag(),
                floats.entries@,
                depth as nat,
            ) == Some(v.model()),
            Err(_) => de_element(
                pool.view_inner(),
                k,
                j.model(),
                o.deny_unknown_fields_flag(),
                floats.entries@,
                depth as nat,
            ) is None,
        },
        !(k is Message) ==> match r {
            Ok(v) => scalar_of_json(pool.view_inner(), k, j.model(), floats.entries@) == Some(v.model()),
            Err(_) => scalar_of_json(pool.view_inner(), k, j.model(), floats.entries@) is None,
        },
        k is Message && depth == 0 ==> r is Err,
        r matches Ok(v) ==> crate::message::kind_fits(pool.view_inner(), k, v.model()),
    decreases depth, 0int,
{
    if let KindRef::Message(i) = k {
        if depth == 0 {
            return Err(err("messages nest too deeply"));
        }
        let d = MessageDescriptor::new(pool.clone_handle(), i);
        let m = message_from_json(&d, j, o, floats, depth - 1)?;
        proof {
            crate::message::lemma_sorted_slots(m.model().slots);
        }
        return Ok(Value::Message(m));
    }
    scalar_from_json(pool, k, j, floats)
}

proof fn lemma_key_index_bound(es: Seq<(KeyModel, ValueModel)>, k: KeyModel)
    ensures
        -1 <= crate::message::key_index(es, k) < es.len(),
    decreases es.len(),
{
    if es.len() > 0 {
        lemma_key_index_bound(es.drop_first(), k);
    }
}

/// Putting an entry of the right kinds keeps a map's entries of the right
/// kinds.
proof fn lemma_put_fits(
    pool: PoolInner,
    kk: KindRef,
    vk: KindRef,
    es: Seq<(KeyModel, ValueModel)>,
    k: KeyModel,
    v: ValueModel,
)
    requires
        crate::message::entries_fit(pool, kk, vk, es),
        crate::message::key_fits(kk, k),
        crate::message::kind_fits(pool, vk, v),
    ensures
        crate::message::entries_fit(pool, kk, vk, crate::message::entries_put(es, k, v)),
{
    lemma_key_index_bound(es, k);
}

/// A key read from JSON has the kind it was read as.
proof fn lemma_json_key_fits(s: Seq<char>, k: KindRef)
    requires
        json_map_key(s, k) is Some,
    ensures
        crate::message::key_fits(k, json_map_key(s, k)->0),
{
}

/// The value of field `fd` a JSON value gives: a list from an array, a
/// map from an object, else a single value.
fn field_from_json(
    fd: &FieldDescriptor,
    j: &Json,
    o: &DeserializeOptions,
    floats: &FloatLiterals,
    depth: u32,
) -> (r: Result<Value, String>)
    ensures
        match r {
            Ok(v) => de_field(
                fd.pool_view(),
                fd.entry(),
                j.model(),
                o.deny_unknown_fields_flag(),
                floats.entries@,
                depth as nat,
            ) == Some(v.model()),
            Err(_) => de_field(
                fd.pool_view(),
                fd.entry(),
                j.model(),
                o.deny_unknown_fields_flag(),
                floats.entries@,
                depth as nat,
            ) is None,
        },
        r matches Ok(v) ==> crate::message::value_fits(fd.pool_view(), fd.entry(), v.model()),
    decreases depth, 1int,
{
    let ghost deny = o.deny_unknown_fields_flag();
    let k = fd.kind_ref();
    let pool = fd.pool_ref();
    if fd.is_map() {
        let _p = pool.inner_ref();
        proof {
            crate::message::lemma_map_kinds_ok(fd.pool_view(), fd.entry());
        }
        let (kk, vk) = match crate::message::map_entry_kinds(fd) {
            Some(p) => p,
            None => {
                return Err(err("map field without map-entry descriptor"));
            },
        };
        let members = match j {
            Json::Object(members) => members,
            _ => {
                return Err(err("expected a JSON object as map"));
            },
        };
        proof {
            lemma_json_entry_models_len(members@);
        }
        let ghost ms = json_entry_models(members@);
        let mut es: Vec<(MapKey, Value)> = Vec::new();
        let mut i: usize = 0;
        proof {
            lemma_entry_models_len(es@);
            assert(entry_models(es@) =~= Seq::<(KeyModel, ValueModel)>::empty());
        }
        while i < members.len()
            invariant
                i <= members@.len(),
                kind_ok(vk, pool.view_inner().messages@.len(), pool.view_inner().enums@.len()),
                field_is_map(fd.pool_view(), fd.entry()),
                map_kinds(fd.pool_view(), fd.entry()) == Some((kk, vk)),
                pool.view_inner() == fd.pool_view(),
                crate::message::entries_fit(fd.pool_view(), kk, vk, entry_models(es@)),
                ms == json_entry_models(members@),
                ms.len() == members@.len(),
                forall|q: int|
                    0 <= q < members@.len() ==> #[trigger] ms[q] == (members@[q].0@, members@[q].1.model()),
                j.model() == JsonModel::Object(ms),
                deny == o.deny_unknown_fields_flag(),
                de_field(fd.pool_view(), fd.entry(), j.model(), deny, floats.entries@, depth as nat)
                    == match de_entries(
                    fd.pool_view(),
                    kk,
                    vk,
                    ms,
                    deny,
                    floats.entries@,
                    depth as nat,
                    entry_models(es@),
                    i as int,
                ) {
                    Some(x) => Some(ValueModel::Mapping(x)),
                    None => None,
                },
            decreases members@.len() - i,
        {
            let key = match map_key_from(&members[i].0, kk) {
                Some(key) => key,
                None => {
                    return Err(fail("invalid map key ", members[i].0.as_str()));
                },
            };
            let v = element_from_json(pool, vk, &members[i].1, o, floats, depth)?;
            proof {
                lemma_json_key_fits(members@[i as int].0@, kk);
                lemma_put_fits(fd.pool_view(), kk, vk, entry_models(es@), key.model(), v.model());
            }
            put_entry(&mut es, key, v);
            i = i + 1;
        }
        return Ok(Value::Mapping(es));
    }
    if fd.cardinality() == Cardinality::Repeated {
        let items = match j {
            Json::Array(items) => items,
            _ => {
                return Err(err("expected a JSON array"));
            },
        };
        proof {
            lemma_json_models_index(items@);
        }
        let ghost js = json_models(items@);
        let mut out: Vec<Value> = Vec::new();
        let mut i: usize = 0;
        proof {
            crate::value::lemma_models_len(out@);
            assert(crate::value::models_of(out@) =~= Seq::<ValueModel>::empty());
        }
        while i < items.len()
            invariant
                i <= items@.len(),
                k == fd.entry().kind,
                kind_ok(k, pool.view_inner().messages@.len(), pool.view_inner().enums@.len()),
                pool.view_inner() == fd.pool_view(),
                crate::message::field_is_list(fd.pool_view(), fd.entry()),
                forall|q: int| 0 <= q < out@.len() ==> crate::message::kind_fits(
                    fd.pool_view(),
                    k,
                    #[trigger] out@[q].model(),
                ),
                js == json_models(items@),
                js.len() == items@.len(),
                forall|q: int| 0 <= q < items@.len() ==> #[trigger] js[q] == items@[q].model(),
                j.model() == JsonModel::Array(js),
                deny == o.deny_unknown_fields_flag(),
                de_field(fd.pool_view(), fd.entry(), j.model(), deny, floats.entries@, depth as nat)
                    == match de_items(
                    fd.pool_view(),
                    k,
                    js,
                    deny,
                    floats.entries@,
                    depth as nat,
                    crate::value::models_of(out@),
                    i as int,
                ) {
                    Some(x) => Some(ValueModel::List(x)),
                    None => None,
                },
            decreases items@.len() - i,
        {
            let e = element_from_json(pool, k, &items[i], o, floats, depth)?;
            let ghost before = out@;
            out.push(e);
            proof {
                crate::value::lemma_models_len(before);
                crate::value::lemma_models_len(out@);
                assert(crate::value::models_of(out@) =~= crate::value::models_of(before).push(
                    e.model(),
                ));
                assert forall|q: int| 0 <= q < out@.len() implies crate::message::kind_fits(
                    fd.pool_view(),
                    k,
                    #[trigger] out@[q].model(),
                ) by {
                    if q < before.len() {
                        assert(out@[q] == before[q]);
                    }
                }
            }
            i = i + 1;
        }
        proof {
            crate::value::lemma_models_len(out@);
        }
        return Ok(Value::List(out));
    }
    element_from_json(pool, k, j, o, floats, depth)
}

/// A JSON value read as the fields of message `msg`: it must be an object.
pub open spec fn de_object(
    pool: PoolInner,
    msg: u32,
    j: JsonModel,
    deny: bool,
    fl: Seq<(String, u32, u64)>,
    depth: nat,
) -> Option<Map<u32, SlotModel>> {
    match j {
        JsonModel::Object(ms) => de_plain(pool, msg, ms, deny, fl, depth, Map::empty(), 0),
        _ => None,
    }
}

/// The field of `d` a JSON member name selects (see [`member_field`]).
fn member_field_of(d: &MessageDescriptor, key: &String) -> (r: Option<FieldDescriptor>)
    ensures
        match r {
            Some(f) => f.pool_view() == d.pool_view() && f.message() == d.index() && member_field(
                d.pool_view(),
                d.index(),
                key@,
            ) == Some(f.entry()),
            None => member_field(d.pool_view(), d.index(), key@) is None,
        },
{
    let ghost fs = fields_of(d.pool_view(), d.index());
    match d.get_field_by_json_name(key.as_str()) {
        Some(f) => {
            proof {
                assert(fs == d.entry().fields@);
                crate::textparse::lemma_first_json_named_at(fs, key@, f.index() as int);
            }
            Some(f)
        },
        None => {
            proof {
                assert(fs == d.entry().fields@);
                crate::textparse::lemma_first_json_named_none(fs, key@);
            }
            let r = d.get_field_by_name(key.as_str());
            proof {
                if r is Some {
                    lemma_first_named_at(fs, key@, r->0.index() as int);
                } else {
                    lemma_first_named_none(fs, key@);
                }
            }
            r
        },
    }
}

/// A message of type `d` read from a JSON object of its fields.
fn plain_from_json(
    d: &MessageDescriptor,
    j: &Json,
    o: &DeserializeOptions,
    floats: &FloatLiterals,
    depth: u32,
) -> (r: Result<DynamicMessage, String>)
    ensures
        r matches Ok(m) ==> m.wf() && m.model().pool == d.pool_view() && m.model().index == d.index(),
        match r {
            Ok(m) => de_object(
                d.pool_view(),
                d.index(),
                j.model(),
                o.deny_unknown_fields_flag(),
                floats.entries@,
                depth as nat,
            ) == Some(crate::message::slot_view(m.model().slots)),
            Err(_) => de_object(
                d.pool_view(),
                d.index(),
                j.model(),
                o.deny_unknown_fields_flag(),
                floats.entries@,
                depth as nat,
            ) is None,
        },
    decreases depth, 2int,
{
    let members = match j {
        Json::Object(members) => members,
        _ => {
            let mut e = "expected a JSON object for ".to_owned();
            e.push_str(d.full_name());
            return Err(e);
        },
    };
    proof {
        lemma_json_entry_models_len(members@);
    }
    let ghost ms = json_entry_models(members@);
    let ghost deny = o.deny_unknown_fields_flag();
    let mut msg = DynamicMessage::new(d.clone_handle());
    proof {
        assert(crate::message::slot_view(msg.model().slots) =~= Map::<u32, SlotModel>::empty());
    }
    let mut i: usize = 0;
    while i < members.len()
        invariant
            i <= members@.len(),
            msg.wf(),
            msg.model().pool == d.pool_view(),
            msg.model().index == d.index(),
            ms == json_entry_models(members@),
            ms.len() == members@.len(),
            forall|q: int|
                0 <= q < members@.len() ==> #[trigger] ms[q] == (members@[q].0@, members@[q].1.model()),
            j.model() == JsonModel::Object(ms),
            deny == o.deny_unknown_fields_flag(),
            de_object(d.pool_view(), d.index(), j.model(), deny, floats.entries@, depth as nat)
                == de_plain(
                d.pool_view(),
                d.index(),
                ms,
                deny,
                floats.entries@,
                depth as nat,
                crate::message::slot_view(msg.model().slots),
                i as int,
            ),
        decreases members@.len() - i,
    {
        let key = &members[i].0;
        let fd = member_field_of(d, key);
        match fd {
            Some(fd) => {
                let v = field_from_json(&fd, &members[i].1, o, floats, depth)?;
                let ghost before = msg.model().slots;
                let ghost vm = v.model();
                msg.set_field(&fd, v);
                proof {
                    crate::message::lemma_set_view(
                        d.pool_view(),
                        d.index(),
                        fd.entry(),
                        before,
                        msg.model().slots,
                        vm,
                    );
                }
            },
            None => {
                if o.denies_unknown() {
                    return Err(fail("unknown field ", key.as_str()));
                }
            },
        }
        i = i + 1;
    }
    Ok(msg)
}

/// A fresh message of type `d` with field `name` set to `v` when the type
/// has such a field taking such a value.
fn with_field(d: &MessageDescriptor, name: &str, v: Value) -> (r: DynamicMessage)
    requires
        shares_pool(v.model(), d.pool_view()),
    ensures
        r.wf(),
        r.model().pool == d.pool_view(),
        r.model().index == d.index(),
        crate::message::slot_view(r.model().slots) == put_named(
            d.pool_view(),
            d.index(),
            Map::empty(),
            name@,
            v.model(),
        ),
{
    let mut m = DynamicMessage::new(d.clone_handle());
    proof {
        assert(crate::message::slot_view(m.model().slots) =~= Map::<u32, SlotModel>::empty());
    }
    let f = d.get_field_by_name(name);
    proof {
        lemma_named_field(d, name@, f);
    }
    match f {
        Some(f) => {
            if crate::message::value_valid_shared(&f, &v) {
                let ghost before = m.model().slots;
                let ghost vm = v.model();
                m.set_field(&f, v);
                proof {
                    crate::message::lemma_set_view(
                        d.pool_view(),
                        d.index(),
                        f.entry(),
                        before,
                        m.model().slots,
                        vm,
                    );
                }
            }
        },
        None => {},
    }
    m
}

/// A `Duration` text read as seconds and nanos.
/// Index of the first `.` of `cs` in `i..end`, or `end`.
pub open spec fn dot_in(cs: Seq<char>, i: int, end: int) -> int
    decreases end - i,
{
    if i >= end {
        end
    } else if cs[i] == '.' {
        i
    } else {
        dot_in(cs, i + 1, end)
    }
}

/// The first nine digits of a fraction, padded with zeros.
pub open spec fn padded_nanos(frac: Seq<char>) -> Seq<char> {
    if frac.len() >= 9 {
        frac.take(9)
    } else {
        frac + Seq::new((9 - frac.len()) as nat, |_i: int| '0')
    }
}

/// The nanoseconds a fraction after the `.` gives (none: 0).
pub open spec fn duration_nanos(frac: Seq<char>) -> Option<i64> {
    if frac.len() == 0 {
        Some(0)
    } else {
        match decimal_of(padded_nanos(frac)) {
            Some(p) => signed_within(p, 0x8000_0000_0000_0000, 0x7fff_ffff_ffff_ffff),
            None => None,
        }
    }
}

/// The seconds and nanoseconds a `Duration` text (`[-]secs[.frac]s`)
/// gives; both negated for a leading `-`.
pub open spec fn duration_of(cs: Seq<char>) -> Option<(i64, i32)> {
    if cs.len() == 0 || cs.last() != 's' {
        None
    } else {
        let body_end = cs.len() - 1;
        let neg = body_end > 0 && cs[0] == '-';
        let start: int = if neg {
            1
        } else {
            0
        };
        let dot = dot_in(cs, start, body_end);
        let secs = match decimal_of(cs.subrange(start, dot)) {
            Some(p) => signed_within(p, 0x8000_0000_0000_0000, 0x7fff_ffff_ffff_ffff),
            None => None,
        };
        let nanos = if dot < body_end {
            duration_nanos(cs.subrange(dot + 1, body_end))
        } else {
            Some(0)
        };
        match (secs, nanos) {
            (Some(sv), Some(nv)) => {
                let n32 = crate::wire::spec_i32_of_bits(crate::wire::spec_u64_of_int(nv as int)) as i32;
                if neg {
                    Some((
                        if sv == i64::MIN {
                            i64::MIN
                        } else {
                            (-sv) as i64
                        },
                        if n32 == i32::MIN {
                            i32::MIN
                        } else {
                            (-n32) as i32
                        },
                    ))
                } else {
                    Some((sv, n32))
                }
            },
            _ => None,
        }
    }
}

fn parse_duration(s: &String) -> (r: Result<(i64, i32), String>)
    ensures
        match r {
            Ok(d) => duration_of(s@) == Some(d),
            Err(_) => duration_of(s@) is None,
        },
{
    let cs = crate::text::chars_of(s.as_str());
    if cs.len() == 0 || cs[cs.len() - 1] != 's' {
        return Err(err("duration missing trailing `s`"));
    }
    let body_end = cs.len() - 1;
    let mut start: usize = 0;
    let mut neg = false;
    if body_end > 0 && cs[0] == '-' {
        neg = true;
        start = 1;
    }
    let mut dot = body_end;
    let mut i = start;
    while i < body_end
        invariant
            start <= i <= body_end,
            body_end < cs@.len(),
            start <= dot <= body_end,
            dot_in(cs@, start as int, body_end as int) == (if dot < body_end {
                dot as int
            } else {
                dot_in(cs@, i as int, body_end as int)
            }),
        decreases body_end - i,
    {
        if cs[i] == '.' && dot == body_end {
            dot = i;
        }
        i = i + 1;
    }
    let secs_text = crate::text::string_of(&slice_chars(&cs, start, dot));
    let secs: i64 = match parse_decimal(&secs_text) {
        Some(p) => match signed_in(p, 0x8000_0000_0000_0000, 0x7fff_ffff_ffff_ffff) {
            Some(v) => v,
            None => {
                return Err(err("invalid duration seconds"));
            },
        },
        None => {
            return Err(err("invalid duration seconds"));
        },
    };
    let mut nanos: i64 = 0;
    if dot < body_end {
        let mut digits = slice_chars(&cs, dot + 1, body_end);
        let ghost frac = digits@;
        if digits.len() > 0 {
            while digits.len() < 9
                invariant
                    frac.len() <= digits@.len(),
                    frac.len() < 9 ==> digits@.len() <= 9,
                    frac.len() >= 9 ==> digits@ == frac,
                    digits@ == frac + Seq::new((digits@.len() - frac.len()) as nat, |_i: int| '0'),
                decreases 9 - digits@.len(),
            {
                digits.push('0');
                proof {
                    assert(digits@ =~= frac + Seq::new((digits@.len() - frac.len()) as nat, |_i: int| '0'));
                }
            }
            proof {
                assert(digits@.subrange(0, 9) =~= padded_nanos(frac));
            }
            let nine = slice_chars(&digits, 0, 9);
            match parse_decimal(&crate::text::string_of(&nine)) {
                Some(p) => match signed_in(p, 0x8000_0000_0000_0000, 0x7fff_ffff_ffff_ffff) {
                    Some(v) => {
                        nanos = v;
                    },
                    None => {
                        return Err(err("invalid duration nanos"));
                    },
                },
                None => {
                    return Err(err("invalid duration nanos"));
                },
            }
        }
    }
    let n32: i32 = crate::wire::i32_of_bits(crate::wire::u64_of_i64(nanos));
    if neg {
        let s_neg: i64 = if secs == i64::MIN {
            i64::MIN
        } else {
            -secs
        };
        let n_neg: i32 = if n32 == i32::MIN {
            i32::MIN
        } else {
            -n32
        };
        Ok((s_neg, n_neg))
    } else {
        Ok((secs, n32))
    }
}

/// Characters `start..end` of `cs`.
fn slice_chars(cs: &Vec<char>, start: usize, end: usize) -> (r: Vec<char>)
    requires
        start <= end <= cs@.len(),
    ensures
        r@ == cs@.subrange(start as int, end as int),
{
    let mut out: Vec<char> = Vec::new();
    let mut i = start;
    while i < end
        invariant
            start <= i <= end <= cs@.len(),
            out@ == cs@.subrange(start as int, i as int),
        decreases end - i,
    {
        out.push(cs[i]);
        i = i + 1;
        assert(out@ =~= cs@.subrange(start as int, i as int));
    }
    out
}

/// The non-empty comma-separated parts of `cs` from position `i` on, the
/// current part having started at `start`.
pub open spec fn mask_scan(cs: Seq<char>, start: int, i: int) -> Seq<Seq<char>>
    decreases cs.len() - i,
{
    if i >= cs.len() {
        if cs.len() > start {
            seq![cs.subrange(start, cs.len() as int)]
        } else {
            seq![]
        }
    } else if cs[i] == ',' {
        (if i > start {
            seq![cs.subrange(start, i)]
        } else {
            seq![]
        }) + mask_scan(cs, i + 1, i + 1)
    } else {
        mask_scan(cs, start, i + 1)
    }
}

/// A `FieldMask` text read as its paths, in snake case.
fn field_mask_paths(s: &String) -> (r: Vec<Value>)
    ensures
        r@.len() == mask_scan(s@, 0, 0).len(),
        forall|k: int|
            0 <= k < r@.len() ==> (#[trigger] r@[k]).model() == ValueModel::Str(
                crate::case::spec_snake(mask_scan(s@, 0, 0)[k]),
            ),
{
    let cs = crate::text::chars_of(s.as_str());
    let mut out: Vec<Value> = Vec::new();
    let mut start: usize = 0;
    let mut i: usize = 0;
    let ghost mut got: Seq<Seq<char>> = seq![];
    proof {
        assert(got + mask_scan(cs@, 0, 0) =~= mask_scan(cs@, 0, 0));
    }
    while i < cs.len()
        invariant
            start <= i <= cs@.len(),
            cs@ == s@,
            got + mask_scan(cs@, start as int, i as int) == mask_scan(cs@, 0, 0),
            out@.len() == got.len(),
            forall|k: int|
                0 <= k < out@.len() ==> (#[trigger] out@[k]).model() == ValueModel::Str(
                    crate::case::spec_snake(got[k]),
                ),
        decreases cs@.len() - i,
    {
        if cs[i] == ',' {
            if i > start {
                let part = crate::text::string_of(&slice_chars(&cs, start, i));
                let ghost before = out@;
                out.push(Value::String(crate::case::lower_camel_to_snake(part.as_str())));
                proof {
                    assert(got.push(part@) + mask_scan(cs@, i + 1, i + 1) =~= got + mask_scan(
                        cs@,
                        start as int,
                        i as int,
                    ));
                    got = got.push(part@);
                    assert forall|k: int| 0 <= k < out@.len() implies (#[trigger] out@[k]).model()
                        == ValueModel::Str(crate::case::spec_snake(got[k])) by {
                        if k < before.len() {
                            assert(out@[k] == before[k]);
                        }
                    }
                }
            } else {
                proof {
                    assert(got + mask_scan(cs@, i + 1, i + 1) =~= got + mask_scan(
                        cs@,
                        start as int,
                        i as int,
                    ));
                }
            }
            start = i + 1;
        }
        i = i + 1;
    }
    if cs.len() > start {
        let part = crate::text::string_of(&slice_chars(&cs, start, cs.len()));
        let ghost before = out@;
        out.push(Value::String(crate::case::lower_camel_to_snake(part.as_str())));
        proof {
            assert(got.push(part@) =~= got + mask_scan(cs@, start as int, i as int));
            got = got.push(part@);
            assert forall|k: int| 0 <= k < out@.len() implies (#[trigger] out@[k]).model()
                == ValueModel::Str(crate::case::spec_snake(got[k])) by {
                if k < before.len() {
                    assert(out@[k] == before[k]);
                }
            }
        }
    } else {
        proof {
            assert(got =~= got + mask_scan(cs@, start as int, i as int));
        }
    }
    out
}

/// What `msg` reads as, as a message of `pool`.
proof fn lemma_message_from(m: &DynamicMessage)
    requires
        m.wf(),
    ensures
        m.model() == crate::textparse::message_from(
            m.model().pool,
            m.model().index,
            crate::message::slot_view(m.model().slots),
        ),
{
    crate::message::lemma_sorted_slots(m.model().slots);
}

/// Putting an entry whose value is a message of `pool` keeps every map
/// value a message of `pool`.
proof fn lemma_put_shares(
    pool: PoolInner,
    es: Seq<(KeyModel, ValueModel)>,
    k: KeyModel,
    v: ValueModel,
)
    requires
        shares_pool(ValueModel::Mapping(es), pool),
        v matches ValueModel::Message(m) ==> m.pool == pool,
    ensures
        shares_pool(ValueModel::Mapping(crate::message::entries_put(es, k, v)), pool),
{
    lemma_key_index_bound(es, k);
    let r = crate::message::entries_put(es, k, v);
    assert forall|i: int| 0 <= i < r.len() implies (#[trigger] r[i].1 matches ValueModel::Message(m)
        ==> m.pool == pool) by {
        if i < es.len() && i != crate::message::key_index(es, k) {
            assert(r[i] == es[i]);
        }
    }
}

/// A `google.protobuf.Value` message read from any JSON value.
fn dynamic_value_from_json(
    d: &MessageDescriptor,
    j: &Json,
    o: &DeserializeOptions,
    floats: &FloatLiterals,
    depth: u32,
) -> (r: Result<DynamicMessage, String>)
    ensures
        r matches Ok(m) ==> m.wf() && m.model().pool == d.pool_view() && m.model().index == d.index(),
        match r {
            Ok(m) => de_dynamic(
                d.pool_view(),
                d.index(),
                j.model(),
                o.deny_unknown_fields_flag(),
                floats.entries@,
                depth as nat,
            ) == Some(crate::message::slot_view(m.model().slots)),
            Err(_) => de_dynamic(
                d.pool_view(),
                d.index(),
                j.model(),
                o.deny_unknown_fields_flag(),
                floats.entries@,
                depth as nat,
            ) is None,
        },
    decreases depth, 3int,
{
    let pool = d.pool_ref();
    match j {
        Json::Null => Ok(with_field(d, "null_value", Value::EnumNumber(0))),
        Json::Bool(b) => Ok(with_field(d, "bool_value", Value::Bool(*b))),
        Json::Number(n) => Ok(with_field(d, "number_value", Value::F64(n.as_f64))),
        Json::Float64(b) => Ok(with_field(d, "number_value", Value::F64(*b))),
        Json::Str(s) => Ok(with_field(d, "string_value", Value::String(s.clone()))),
        Json::Array(_) => {
            let list_d = match pool.get_message_by_name("google.protobuf.ListValue") {
                Some(x) => x,
                None => {
                    return Err(err("ListValue not in pool"));
                },
            };
            if depth == 0 {
                return Err(err("messages nest too deeply"));
            }
            let inner = list_from_json(&list_d, j, o, floats, depth - 1)?;
            proof {
                lemma_message_from(&inner);
            }
            Ok(with_field(d, "list_value", Value::Message(inner)))
        },
        Json::Object(_) => {
            let struct_d = match pool.get_message_by_name("google.protobuf.Struct") {
                Some(x) => x,
                None => {
                    return Err(err("Struct not in pool"));
                },
            };
            if depth == 0 {
                return Err(err("messages nest too deeply"));
            }
            let inner = struct_from_json(&struct_d, j, o, floats, depth - 1)?;
            proof {
                lemma_message_from(&inner);
            }
            Ok(with_field(d, "struct_value", Value::Message(inner)))
        },
        _ => Err(err("unexpected JSON value")),
    }
}

/// A `Struct` message read from a JSON object.
fn struct_from_json(
    d: &MessageDescriptor,
    j: &Json,
    o: &DeserializeOptions,
    floats: &FloatLiterals,
    depth: u32,
) -> (r: Result<DynamicMessage, String>)
    ensures
        r matches Ok(m) ==> m.wf() && m.model().pool == d.pool_view() && m.model().index == d.index(),
        match r {
            Ok(m) => de_struct(
                d.pool_view(),
                d.index(),
                j.model(),
                o.deny_unknown_fields_flag(),
                floats.entries@,
                depth as nat,
            ) == Some(crate::message::slot_view(m.model().slots)),
            Err(_) => de_struct(
                d.pool_view(),
                d.index(),
                j.model(),
                o.deny_unknown_fields_flag(),
                floats.entries@,
                depth as nat,
            ) is None,
        },
    decreases depth, 4int,
{
    let members = match j {
        Json::Object(members) => members,
        _ => {
            return Err(err("expected a JSON object for google.protobuf.Struct"));
        },
    };
    let value_d = match d.pool_ref().get_message_by_name("google.protobuf.Value") {
        Some(x) => x,
        None => {
            return Err(err("Struct value type not in pool"));
        },
    };
    if depth == 0 {
        return Err(err("messages nest too deeply"));
    }
    proof {
        lemma_json_entry_models_len(members@);
    }
    let ghost ms = json_entry_models(members@);
    let ghost deny = o.deny_unknown_fields_flag();
    let ghost vi = value_d.index();
    let mut es: Vec<(MapKey, Value)> = Vec::new();
    proof {
        lemma_entry_models_len(es@);
        assert(entry_models(es@) =~= Seq::<(KeyModel, ValueModel)>::empty());
    }
    let mut i: usize = 0;
    while i < members.len()
        invariant
            i <= members@.len(),
            depth > 0,
            value_d.pool_view() == d.pool_view(),
            vi == value_d.index(),
            ms == json_entry_models(members@),
            ms.len() == members@.len(),
            forall|q: int|
                0 <= q < members@.len() ==> #[trigger] ms[q] == (members@[q].0@, members@[q].1.model()),
            deny == o.deny_unknown_fields_flag(),
            shares_pool(ValueModel::Mapping(entry_models(es@)), d.pool_view()),
            de_struct(d.pool_view(), d.index(), j.model(), deny, floats.entries@, depth as nat)
                == match de_struct_entries(
                d.pool_view(),
                vi,
                ms,
                deny,
                floats.entries@,
                (depth - 1) as nat,
                seq![],
                0,
            ) {
                Some(x) => Some(
                    put_named(d.pool_view(), d.index(), Map::empty(), "fields"@, ValueModel::Mapping(x)),
                ),
                None => None,
            },
            de_struct_entries(
                d.pool_view(),
                vi,
                ms,
                deny,
                floats.entries@,
                (depth - 1) as nat,
                seq![],
                0,
            ) == de_struct_entries(
                d.pool_view(),
                vi,
                ms,
                deny,
                floats.entries@,
                (depth - 1) as nat,
                entry_models(es@),
                i as int,
            ),
        decreases members@.len() - i,
    {
        let v = dynamic_value_from_json(&value_d, &members[i].1, o, floats, depth - 1)?;
        proof {
            lemma_message_from(&v);
            lemma_put_shares(
                d.pool_view(),
                entry_models(es@),
                KeyModel::Str(members@[i as int].0@),
                ValueModel::Message(v.model()),
            );
        }
        put_entry(&mut es, MapKey::String(members[i].0.clone()), Value::Message(v));
        i = i + 1;
    }
    Ok(with_field(d, "fields", Value::Mapping(es)))
}

/// A `ListValue` message read from a JSON array.
fn list_from_json(
    d: &MessageDescriptor,
    j: &Json,
    o: &DeserializeOptions,
    floats: &FloatLiterals,
    depth: u32,
) -> (r: Result<DynamicMessage, String>)
    ensures
        r matches Ok(m) ==> m.wf() && m.model().pool == d.pool_view() && m.model().index == d.index(),
        match r {
            Ok(m) => de_list(
                d.pool_view(),
                d.index(),
                j.model(),
                o.deny_unknown_fields_flag(),
                floats.entries@,
                depth as nat,
            ) == Some(crate::message::slot_view(m.model().slots)),
            Err(_) => de_list(
                d.pool_view(),
                d.index(),
                j.model(),
                o.deny_unknown_fields_flag(),
                floats.entries@,
                depth as nat,
            ) is None,
        },
    decreases depth, 4int,
{
    let items = match j {
        Json::Array(items) => items,
        _ => {
            return Err(err("expected a JSON array for google.protobuf.ListValue"));
        },
    };
    let value_d = match d.pool_ref().get_message_by_name("google.protobuf.Value") {
        Some(x) => x,
        None => {
            return Err(err("ListValue value type not in pool"));
        },
    };
    if depth == 0 {
        return Err(err("messages nest too deeply"));
    }
    proof {
        lemma_json_models_index(items@);
    }
    let ghost js = json_models(items@);
    let ghost deny = o.deny_unknown_fields_flag();
    let ghost vi = value_d.index();
    let mut out: Vec<Value> = Vec::new();
    proof {
        crate::value::lemma_models_len(out@);
        assert(crate::value::models_of(out@) =~= Seq::<ValueModel>::empty());
    }
    let mut i: usize = 0;
    while i < items.len()
        invariant
            i <= items@.len(),
            depth > 0,
            value_d.pool_view() == d.pool_view(),
            vi == value_d.index(),
            js == json_models(items@),
            js.len() == items@.len(),
            forall|q: int| 0 <= q < items@.len() ==> #[trigger] js[q] == items@[q].model(),
            deny == o.deny_unknown_fields_flag(),
            crate::value::models_of(out@).len() == out@.len(),
            forall|q: int|
                0 <= q < out@.len() ==> (#[trigger] crate::value::models_of(out@)[q] matches ValueModel::Message(
                    m,
                ) ==> m.pool == d.pool_view()),
            de_list(d.pool_view(), d.index(), j.model(), deny, floats.entries@, depth as nat)
                == match de_list_values(
                d.pool_view(),
                vi,
                js,
                deny,
                floats.entries@,
                (depth - 1) as nat,
                seq![],
                0,
            ) {
                Some(x) => Some(
                    put_named(d.pool_view(), d.index(), Map::empty(), "values"@, ValueModel::List(x)),
                ),
                None => None,
            },
            de_list_values(
                d.pool_view(),
                vi,
                js,
                deny,
                floats.entries@,
                (depth - 1) as nat,
                seq![],
                0,
            ) == de_list_values(
                d.pool_view(),
                vi,
                js,
                deny,
                floats.entries@,
                (depth - 1) as nat,
                crate::value::models_of(out@),
                i as int,
            ),
        decreases items@.len() - i,
    {
        let v = dynamic_value_from_json(&value_d, &items[i], o, floats, depth - 1)?;
        proof {
            lemma_message_from(&v);
        }
        let ghost before = out@;
        let ghost vm = v.model();
        out.push(Value::Message(v));
        proof {
            crate::value::lemma_models_len(before);
            crate::value::lemma_models_len(out@);
            assert(crate::value::models_of(out@) =~= crate::value::models_of(before).push(
                ValueModel::Message(vm),
            ));
        }
        i = i + 1;
    }
    Ok(with_field(d, "values", Value::List(out)))
}

/// An `Any` read from a JSON object with `@type`: the payload, read as the
/// type the URL names, is stored encoded.
fn any_from_json(
    d: &MessageDescriptor,
    j: &Json,
    o: &DeserializeOptions,
    floats: &FloatLiterals,
    depth: u32,
) -> (r: Result<DynamicMessage, String>)
    ensures
        r matches Ok(m) ==> m.wf() && m.model().pool == d.pool_view() && m.model().index == d.index(),
        match r {
            Ok(m) => de_any(
                d.pool_view(),
                d.index(),
                j.model(),
                o.deny_unknown_fields_flag(),
                floats.entries@,
                depth as nat,
            ) == Some(crate::message::slot_view(m.model().slots)),
            Err(_) => de_any(
                d.pool_view(),
                d.index(),
                j.model(),
                o.deny_unknown_fields_flag(),
                floats.entries@,
                depth as nat,
            ) is None,
        },
    decreases depth, 4int,
{
    let members = match j {
        Json::Object(members) => members,
        _ => {
            return Err(err("Any expects a JSON object"));
        },
    };
    proof {
        lemma_json_entry_models_len(members@);
    }
    let ghost ms = json_entry_models(members@);
    let mut url: Option<String> = None;
    let mut value: Option<&Json> = None;
    let mut rest: Vec<usize> = Vec::new();
    let mut i: usize = 0;
    proof {
        assert(Seq::new(rest@.len(), |q: int| ms[rest@[q] as int]) =~= Seq::<
            (Seq<char>, JsonModel),
        >::empty());
    }
    while i < members.len()
        invariant
            i <= members@.len(),
            forall|q: int| 0 <= q < rest@.len() ==> #[trigger] rest@[q] < members@.len(),
            j.model() == JsonModel::Object(ms),
            ms == json_entry_models(members@),
            ms.len() == members@.len(),
            forall|q: int|
                0 <= q < members@.len() ==> #[trigger] ms[q] == (members@[q].0@, members@[q].1.model()),
            any_parts(ms, None, None, seq![], 0) == any_parts(
                ms,
                match url {
                    Some(u) => Some(u@),
                    None => None,
                },
                match value {
                    Some(v) => Some(v.model()),
                    None => None,
                },
                Seq::new(rest@.len(), |q: int| ms[rest@[q] as int]),
                i as int,
            ),
        decreases members@.len() - i,
    {
        let ghost rest_before = Seq::new(rest@.len(), |q: int| ms[rest@[q] as int]);
        if members[i].0 == "@type".to_owned() {
            match &members[i].1 {
                Json::Str(s) => {
                    url = Some(s.clone());
                },
                _ => {
                    return Err(err("Any `@type` must be a string"));
                },
            }
        } else {
            if members[i].0 == "value".to_owned() {
                value = Some(&members[i].1);
            }
            rest.push(i);
            proof {
                assert(Seq::new(rest@.len(), |q: int| ms[rest@[q] as int]) =~= rest_before.push(
                    ms[i as int],
                ));
            }
        }
        i = i + 1;
    }
    let url = match url {
        Some(u) => u,
        None => {
            return Err(err("Any missing `@type`"));
        },
    };
    let inner_name = payload_name_of_url(&url);
    let inner_d = match d.pool_ref().get_message_by_name(inner_name.as_str()) {
        Some(x) => x,
        None => {
            let mut e = "Any payload type `".to_owned();
            e.push_str(inner_name.as_str());
            e.push_str("` not found in pool");
            return Err(e);
        },
    };
    if depth == 0 {
        return Err(err("messages nest too deeply"));
    }
    let ghost rest_model = Seq::new(rest@.len(), |q: int| ms[rest@[q] as int]);
    let inner = if is_well_known_type(inner_name.as_str()) {
        match value {
            Some(v) => message_from_json(&inner_d, v, o, floats, depth - 1)?,
            None => {
                return Err(err("Any of WKT requires `value`"));
            },
        }
    } else {
        let mut copy: Vec<(String, Json)> = Vec::new();
        let mut q: usize = 0;
        proof {
            assert(json_entry_models(copy@) =~= rest_model.take(0));
        }
        while q < rest.len()
            invariant
                q <= rest@.len(),
                forall|t: int| 0 <= t < rest@.len() ==> #[trigger] rest@[t] < members@.len(),
                ms.len() == members@.len(),
                forall|t: int|
                    0 <= t < members@.len() ==> #[trigger] ms[t] == (members@[t].0@, members@[t].1.model()),
                rest_model == Seq::new(rest@.len(), |t: int| ms[rest@[t] as int]),
                json_entry_models(copy@) == rest_model.take(q as int),
            decreases rest@.len() - q,
        {
            let idx = rest[q];
            let e = (members[idx].0.clone(), members[idx].1.duplicate());
            proof {
                lemma_json_entry_models_push(copy@, e);
                assert(rest_model.take(q as int).push(rest_model[q as int]) =~= rest_model.take(q + 1));
            }
            copy.push(e);
            q = q + 1;
        }
        proof {
            assert(rest_model.take(q as int) =~= rest_model);
        }
        plain_from_json(&inner_d, &Json::Object(copy), o, floats, depth - 1)?
    };
    proof {
        lemma_message_from(&inner);
    }
    let bytes = inner.encode_to_vec();
    let mut msg = DynamicMessage::new(d.clone_handle());
    proof {
        assert(crate::message::slot_view(msg.model().slots) =~= Map::<u32, SlotModel>::empty());
    }
    put_by_name(&mut msg, "type_url", Value::String(url));
    put_by_name(&mut msg, "value", Value::Bytes(bytes));
    Ok(msg)
}

impl Json {
    /// A copy of this value.
    pub fn duplicate(&self) -> (r: Json)
        ensures
            r.model() == self.model(),
        decreases self,
    {
        match self {
            Json::Null => Json::Null,
            Json::Bool(b) => Json::Bool(*b),
            Json::Uint(v) => Json::Uint(*v),
            Json::Int(v) => Json::Int(*v),
            Json::Float32(b) => Json::Float32(*b),
            Json::Float64(b) => Json::Float64(*b),
            Json::Str(s) => Json::Str(s.clone()),
            Json::Number(n) => Json::Number(*n),
            Json::Array(items) => {
                let mut out: Vec<Json> = Vec::new();
                let mut i: usize = 0;
                while i < items.len()
                    invariant
                        *self == Json::Array(*items),
                        i <= items@.len(),
                        json_models(out@) == json_models(items@.take(i as int)),
                    decreases items@.len() - i,
                {
                    proof {
                        assert(*items == self->Array_0);
                        assert(decreases_to!(*self => self->Array_0));
                        assert(decreases_to!(*items => items@));
                        assert(decreases_to!(items@ => items@[i as int]));
                    }
                    let d = items[i].duplicate();
                    proof {
                        lemma_json_models_push(out@, d);
                        lemma_json_models_push(items@.take(i as int), items@[i as int]);
                        assert(items@.take(i as int).push(items@[i as int]) =~= items@.take(i + 1));
                    }
                    out.push(d);
                    i = i + 1;
                }
                proof {
                    assert(items@.take(i as int) =~= items@);
                }
                Json::Array(out)
            },
            Json::Object(es) => {
                let mut out: Vec<(String, Json)> = Vec::new();
                let mut i: usize = 0;
                while i < es.len()
                    invariant
                        *self == Json::Object(*es),
                        i <= es@.len(),
                        json_entry_models(out@) == json_entry_models(es@.take(i as int)),
                    decreases es@.len() - i,
                {
                    proof {
                        assert(*es == self->Object_0);
                        assert(decreases_to!(*self => self->Object_0));
                        assert(decreases_to!(*es => es@));
                        assert(decreases_to!(es@ => es@[i as int]));
                        assert(decreases_to!(es@[i as int] => es@[i as int].1));
                    }
                    let e = (es[i].0.clone(), es[i].1.duplicate());
                    proof {
                        lemma_json_entry_models_push(out@, e);
                        lemma_json_entry_models_push(es@.take(i as int), es@[i as int]);
                        assert(es@.take(i as int).push(es@[i as int]) =~= es@.take(i + 1));
                    }
                    out.push(e);
                    i = i + 1;
                }
                proof {
                    assert(es@.take(i as int) =~= es@);
                }
                Json::Object(out)
            },
        }
    }
}

/// A scalar wrapper message read from its bare value.
fn wrapper_from_json(
    d: &MessageDescriptor,
    j: &Json,
    o: &DeserializeOptions,
    floats: &FloatLiterals,
    depth: u32,
) -> (r: Result<DynamicMessage, String>)
    ensures
        r matches Ok(m) ==> m.wf() && m.model().pool == d.pool_view() && m.model().index == d.index(),
        match r {
            Ok(m) => de_wrapper(
                d.pool_view(),
                d.index(),
                j.model(),
                o.deny_unknown_fields_flag(),
                floats.entries@,
                depth as nat,
            ) == Some(crate::message::slot_view(m.model().slots)),
            Err(_) => de_wrapper(
                d.pool_view(),
                d.index(),
                j.model(),
                o.deny_unknown_fields_flag(),
                floats.entries@,
                depth as nat,
            ) is None,
        },
    decreases depth, 3int,
{
    let f = d.get_field_by_name("value");
    proof {
        lemma_named_field(d, "value"@, f);
    }
    let fd = match f {
        Some(f) => f,
        None => {
            return Err(err("scalar wrapper missing `value`"));
        },
    };
    let k = fd.kind_ref();
    let v = element_from_json(fd.pool_ref(), k, j, o, floats, depth)?;
    let mut msg = DynamicMessage::new(d.clone_handle());
    proof {
        assert(crate::message::slot_view(msg.model().slots) =~= Map::<u32, SlotModel>::empty());
    }
    if crate::message::value_valid_shared(&fd, &v) {
        let ghost before = msg.model().slots;
        let ghost vm = v.model();
        msg.set_field(&fd, v);
        proof {
            crate::message::lemma_set_view(d.pool_view(), d.index(), fd.entry(), before, msg.model().slots, vm);
        }
        Ok(msg)
    } else {
        Err(err("invalid value for the wrapper's `value` field"))
    }
}

/// A message of type `d` read from JSON: by its well-known mapping, else
/// from an object of its fields.
fn message_from_json(
    d: &MessageDescriptor,
    j: &Json,
    o: &DeserializeOptions,
    floats: &FloatLiterals,
    depth: u32,
) -> (r: Result<DynamicMessage, String>)
    ensures
        r matches Ok(m) ==> m.wf() && m.model().pool == d.pool_view() && m.model().index == d.index(),
        match r {
            Ok(m) => de_message(
                d.pool_view(),
                d.index(),
                j.model(),
                o.deny_unknown_fields_flag(),
                floats.entries@,
                depth as nat,
            ) == Some(crate::message::slot_view(m.model().slots)),
            Err(_) => de_message(
                d.pool_view(),
                d.index(),
                j.model(),
                o.deny_unknown_fields_flag(),
                floats.entries@,
                depth as nat,
            ) is None,
        },
    decreases depth, 5int,
{
    let name = d.full_name();
    if !is_well_known_type(name) {
        return plain_from_json(d, j, o, floats, depth);
    }
    let n = name.to_owned();
    let mut m = DynamicMessage::new(d.clone_handle());
    proof {
        assert(crate::message::slot_view(m.model().slots) =~= Map::<u32, SlotModel>::empty());
    }
    if n == "google.protobuf.Empty".to_owned() {
        Ok(m)
    } else if n == "google.protobuf.Timestamp".to_owned() {
        let s = match j {
            Json::Str(s) => s,
            _ => {
                return Err(err("expected a timestamp string"));
            },
        };
        match parse_rfc3339(s.as_str()) {
            Some((secs, nanos)) => {
                put_by_name(&mut m, "seconds", Value::I64(secs));
                put_by_name(&mut m, "nanos", Value::I32(crate::wire::i32_of_bits(nanos as u64)));
                Ok(m)
            },
            None => Err(fail("invalid timestamp ", s.as_str())),
        }
    } else if n == "google.protobuf.Duration".to_owned() {
        let s = match j {
            Json::Str(s) => s,
            _ => {
                return Err(err("expected a duration string"));
            },
        };
        let (secs, nanos) = parse_duration(s)?;
        put_by_name(&mut m, "seconds", Value::I64(secs));
        put_by_name(&mut m, "nanos", Value::I32(nanos));
        Ok(m)
    } else if n == "google.protobuf.FieldMask".to_owned() {
        match j {
            Json::Str(s) => {
                let paths = field_mask_paths(s);
                proof {
                    crate::value::lemma_models_len(paths@);
                    assert(crate::value::models_of(paths@) =~= mask_values(s@));
                }
                Ok(with_field(d, "paths", Value::List(paths)))
            },
            _ => Err(err("expected a field mask string")),
        }
    } else if n == "google.protobuf.Struct".to_owned() {
        struct_from_json(d, j, o, floats, depth)
    } else if n == "google.protobuf.ListValue".to_owned() {
        list_from_json(d, j, o, floats, depth)
    } else if n == "google.protobuf.Value".to_owned() {
        dynamic_value_from_json(d, j, o, floats, depth)
    } else if n == "google.protobuf.Any".to_owned() {
        any_from_json(d, j, o, floats, depth)
    } else {
        wrapper_from_json(d, j, o, floats, depth)
    }
}

impl DynamicMessage {
    /// Read a message of type `descriptor` from proto3 JSON with the default
    /// settings; string-written floats take their bits from `floats`.
    pub fn deserialize(descriptor: MessageDescriptor, json: &Json, floats: &FloatLiterals) -> (r: Result<DynamicMessage, String>)
        ensures
            r matches Ok(m) ==> m.wf() && m.model().pool == descriptor.pool_view() && m.model().index == descriptor.index(),
            match r {
                Ok(m) => de_message(
                    descriptor.pool_view(),
                    descriptor.index(),
                    json.model(),
                    false,
                    floats.entries@,
                    JSON_DEPTH_LIMIT as nat,
                ) == Some(crate::message::slot_view(m.model().slots)),
                Err(_) => de_message(
                    descriptor.pool_view(),
                    descriptor.index(),
                    json.model(),
                    false,
                    floats.entries@,
                    JSON_DEPTH_LIMIT as nat,
                ) is None,
            },
    {
        let o = DeserializeOptions::new();
        message_from_json(&descriptor, json, &o, floats, JSON_DEPTH_LIMIT)
    }

    /// Read a message of type `descriptor` from proto3 JSON with `options`.
    pub fn deserialize_with_options(
        descriptor: MessageDescriptor,
        json: &Json,
        options: &DeserializeOptions,
        floats: &FloatLiterals,
    ) -> (r: Result<DynamicMessage, String>)
        ensures
            r matches Ok(m) ==> m.wf() && m.model().pool == descriptor.pool_view() && m.model().index == descriptor.index(),
            match r {
                Ok(m) => de_message(
                    descriptor.pool_view(),
                    descriptor.index(),
                    json.model(),
                    options.deny_unknown_fields_flag(),
                    floats.entries@,
                    JSON_DEPTH_LIMIT as nat,
                ) == Some(crate::message::slot_view(m.model().slots)),
                Err(_) => de_message(
                    descriptor.pool_view(),
                    descriptor.index(),
                    json.model(),
                    options.deny_unknown_fields_flag(),
                    floats.entries@,
                    JSON_DEPTH_LIMIT as nat,
                ) is None,
            },
    {
        message_from_json(&descriptor, json, options, floats, JSON_DEPTH_LIMIT)
    }
}

} // verus!
