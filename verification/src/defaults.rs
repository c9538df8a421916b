//! Parser for `FieldDescriptorProto.default_value` literals, run eagerly
//! while the pool is built so that a malformed default surfaces as a
//! descriptor error.

use vstd::prelude::*;
use vstd::string::StringSliceAdditionalSpecFns;

use crate::literal::{
    decode_c_escapes_bytes, float_syntax_ok, from_str_radix, parse_i32, spec_float_syntax,
    spec_from_str_radix, spec_parse_i32, spec_trim, spec_unescape, trim_chars,
};
use crate::pool::{DefaultValue, EnumValueEntry, KindRef};
use crate::text::{chars_of, spec_utf8_or_lossy, string_of, utf8_or_lossy};
use crate::wire::{spec_i32_of_bits, spec_u64_of_int};

verus! {

/// The mathematical content of a [`DefaultValue`].
pub enum DefaultModel {
    Bool(bool),
    I32(i32),
    I64(i64),
    U32(u32),
    U64(u64),
    FloatLiteral(Seq<char>),
    String(Seq<char>),
    Bytes(Seq<u8>),
    EnumNumber(i32),
}

impl DefaultValue {
    pub open spec fn model(&self) -> DefaultModel {
        match self {
            DefaultValue::Bool(b) => DefaultModel::Bool(*b),
            DefaultValue::I32(v) => DefaultModel::I32(*v),
            DefaultValue::I64(v) => DefaultModel::I64(*v),
            DefaultValue::U32(v) => DefaultModel::U32(*v),
            DefaultValue::U64(v) => DefaultModel::U64(*v),
            DefaultValue::FloatLiteral(s) => DefaultModel::FloatLiteral(s@),
            DefaultValue::String(s) => DefaultModel::String(s@),
            DefaultValue::Bytes(b) => DefaultModel::Bytes(b@),
            DefaultValue::EnumNumber(n) => DefaultModel::EnumNumber(*n),
        }
    }
}

/// Unsigned integer literal: `0x`/`0X` hex, a leading `0` followed only
/// by decimal digits for octal, otherwise decimal. Each form also takes
/// one optional `+` after its prefix, as `from_str_radix` does.
pub open spec fn spec_parse_unsigned(r: Seq<char>) -> Option<nat> {
    if r.len() >= 2 && r[0] == '0' && (r[1] == 'x' || r[1] == 'X') {
        spec_from_str_radix(r.skip(2), 16)
    } else if r.len() > 1 && r[0] == '0' && (forall|i: int|
        0 <= i < r.len() ==> '0' <= #[trigger] r[i] && r[i] <= '9') {
        spec_from_str_radix(r.skip(1), 8)
    } else {
        spec_from_str_radix(r, 10)
    }
}

/// Signed integer literal: `-` negates the unsigned literal that follows;
/// with `plus`, a leading `+` is also dropped. The result must fit `i64`.
/// With `trim`, whitespace is trimmed first and again inside.
pub open spec fn spec_parse_signed(raw: Seq<char>, trim: bool) -> Option<int> {
    let r = if trim {
        spec_trim(raw)
    } else {
        raw
    };
    let (neg, body) = if r.len() > 0 && r[0] == '-' {
        (true, r.drop_first())
    } else if trim && r.len() > 0 && r[0] == '+' {
        (false, r.drop_first())
    } else {
        (false, r)
    };
    match spec_parse_unsigned(
        if trim {
            spec_trim(body)
        } else {
            body
        },
    ) {
        None => None,
        Some(v) => {
            let s: int = if neg {
                -v
            } else {
                v as int
            };
            if -0x8000_0000_0000_0000 <= s <= 0x7fff_ffff_ffff_ffff {
                Some(s)
            } else {
                None
            }
        },
    }
}

fn all_decimal(cs: &Vec<char>) -> (r: bool)
    ensures
        r == (forall|i: int| 0 <= i < cs@.len() ==> '0' <= #[trigger] cs@[i] && cs@[i] <= '9'),
{
    let mut i: usize = 0;
    while i < cs.len()
        invariant
            i <= cs.len(),
            forall|k: int| 0 <= k < i ==> '0' <= #[trigger] cs@[k] && cs@[k] <= '9',
        decreases cs.len() - i,
    {
        if !('0' <= cs[i] && cs[i] <= '9') {
            return false;
        }
        i = i + 1;
    }
    true
}

/// Parse an unsigned integer literal held in `cs` (see
/// [`spec_parse_unsigned`]).
pub fn parse_unsigned_chars(cs: &Vec<char>) -> (r: Option<u64>)
    ensures
        r matches Some(v) ==> spec_parse_unsigned(cs@) == Some(v as nat),
        r is None ==> spec_parse_unsigned(cs@) is None,
{
    if cs.len() >= 2 && cs[0] == '0' && (cs[1] == 'x' || cs[1] == 'X') {
        return from_str_radix(cs, 2, 16);
    }
    if cs.len() > 1 && cs[0] == '0' && all_decimal(cs) {
        return from_str_radix(cs, 1, 8);
    }
    assert(cs@.skip(0) =~= cs@);
    from_str_radix(cs, 0, 10)
}

fn tail(cs: &Vec<char>, start: usize) -> (r: Vec<char>)
    requires
        start <= cs@.len(),
    ensures
        r@ == cs@.skip(start as int),
{
    let mut out: Vec<char> = Vec::new();
    let mut i = start;
    while i < cs.len()
        invariant
            start <= i <= cs.len(),
            out@ == cs@.subrange(start as int, i as int),
        decreases cs.len() - i,
    {
        out.push(cs[i]);
        i = i + 1;
        assert(out@ =~= cs@.subrange(start as int, i as int));
    }
    assert(out@ =~= cs@.skip(start as int));
    out
}

/// Parse a signed integer literal (see [`spec_parse_signed`]).
pub fn parse_signed_chars(raw: &Vec<char>, trim: bool) -> (r: Option<i64>)
    ensures
        r matches Some(v) ==> spec_parse_signed(raw@, trim) == Some(v as int),
        r is None ==> spec_parse_signed(raw@, trim) is None,
{
    let r = if trim {
        trim_chars(raw)
    } else {
        tail(raw, 0)
    };
    assert(raw@.skip(0) =~= raw@);
    let neg;
    let body;
    if r.len() > 0 && r[0] == '-' {
        neg = true;
        body = tail(&r, 1);
    } else if trim && r.len() > 0 && r[0] == '+' {
        neg = false;
        body = tail(&r, 1);
    } else {
        neg = false;
        body = tail(&r, 0);
    }
    assert(r@.skip(1) =~= r@.drop_first());
    assert(r@.skip(0) =~= r@);
    let inner = if trim {
        trim_chars(&body)
    } else {
        body
    };
    match parse_unsigned_chars(&inner) {
        None => None,
        Some(v) => {
            if neg {
                if v <= 0x8000_0000_0000_0000 {
                    if v == 0x8000_0000_0000_0000 {
                        Some(i64::MIN)
                    } else {
                        Some(-(v as i64))
                    }
                } else {
                    None
                }
            } else {
                if v <= 0x7fff_ffff_ffff_ffff {
                    Some(v as i64)
                } else {
                    None
                }
            }
        },
    }
}

/// Parse a trimmed unsigned integer default.
pub fn parse_unsigned_int(raw: &str) -> (r: Result<u64, String>)
    ensures
        r matches Ok(v) ==> spec_parse_unsigned(spec_trim(raw@)) == Some(v as nat),
        r is Err ==> spec_parse_unsigned(spec_trim(raw@)) is None,
{
    let cs = chars_of(raw);
    let t = trim_chars(&cs);
    match parse_unsigned_chars(&t) {
        Some(v) => Ok(v),
        None => {
            let mut m = "invalid integer `".to_owned();
            m.push_str(raw);
            m.push('`');
            Err(m)
        },
    }
}

/// Parse a trimmed signed integer default.
pub fn parse_signed_int(raw: &str) -> (r: Result<i64, String>)
    ensures
        r matches Ok(v) ==> spec_parse_signed(raw@, true) == Some(v as int),
        r is Err ==> spec_parse_signed(raw@, true) is None,
{
    let cs = chars_of(raw);
    match parse_signed_chars(&cs, true) {
        Some(v) => Ok(v),
        None => {
            let mut m = "invalid integer default `".to_owned();
            m.push_str(raw);
            m.push('`');
            Err(m)
        },
    }
}

/// Decode C escapes of a string default; on malformed escapes the result
/// is empty. Invalid UTF-8 is decoded lossily.
pub open spec fn spec_unescape_str(raw: Seq<char>) -> Seq<char> {
    let bytes = match spec_unescape(vstd::utf8::encode_utf8(raw)) {
        Some(b) => b,
        None => seq![],
    };
    spec_utf8_or_lossy(bytes)
}

/// Decode C escapes in a string default (see [`spec_unescape_str`]).
pub fn decode_c_escapes_str(raw: &str) -> (r: String)
    ensures
        r@ == spec_unescape_str(raw@),
{
    let bytes = match decode_c_escapes_bytes(raw) {
        Ok(b) => b,
        Err(_) => Vec::new(),
    };
    utf8_or_lossy(bytes)
}

/// First value in `values` with name `name`.
pub open spec fn enum_value_by_name(values: Seq<EnumValueEntry>, name: Seq<char>) -> Option<i32>
    decreases values.len(),
{
    if values.len() == 0 {
        None
    } else if values[0].name@ == name {
        Some(values[0].number)
    } else {
        enum_value_by_name(values.drop_first(), name)
    }
}

/// Find the number of the enum value called `name`.
pub fn find_enum_value(values: &Vec<EnumValueEntry>, name: &String) -> (r: Option<i32>)
    ensures
        r == enum_value_by_name(values@, name@),
{
    let mut i: usize = 0;
    assert(values@.skip(0) =~= values@);
    while i < values.len()
        invariant
            i <= values.len(),
            enum_value_by_name(values@, name@) == enum_value_by_name(values@.skip(i as int), name@),
        decreases values.len() - i,
    {
        assert(values@.skip(i as int).drop_first() =~= values@.skip(i + 1));
        if values[i].name == *name {
            return Some(values[i].number);
        }
        i = i + 1;
    }
    None
}

/// The default a literal denotes for a field of `kind`; `None` when it
/// does not parse. Enum defaults name a value (or give its number);
/// messages have no defaults.
pub open spec fn spec_default(
    raw: Seq<char>,
    kind: KindRef,
    enum_values: Option<Seq<EnumValueEntry>>,
) -> Option<DefaultModel> {
    let s = raw;
    match kind {
        KindRef::Bool => if s == seq!['t', 'r', 'u', 'e'] {
            Some(DefaultModel::Bool(true))
        } else if s == seq!['f', 'a', 'l', 's', 'e'] {
            Some(DefaultModel::Bool(false))
        } else {
            None
        },
        KindRef::Int32 | KindRef::Sint32 | KindRef::Sfixed32 => match spec_parse_signed(s, true) {
            Some(v) => Some(DefaultModel::I32(spec_i32_of_bits(spec_u64_of_int(v)) as i32)),
            None => None,
        },
        KindRef::Int64 | KindRef::Sint64 | KindRef::Sfixed64 => match spec_parse_signed(s, true) {
            Some(v) => Some(DefaultModel::I64(v as i64)),
            None => None,
        },
        KindRef::Uint32 | KindRef::Fixed32 => match spec_parse_unsigned(spec_trim(s)) {
            Some(v) => Some(DefaultModel::U32((v % 0x1_0000_0000) as u32)),
            None => None,
        },
        KindRef::Uint64 | KindRef::Fixed64 => match spec_parse_unsigned(spec_trim(s)) {
            Some(v) => Some(DefaultModel::U64(v as u64)),
            None => None,
        },
        KindRef::Float | KindRef::Double => if spec_float_syntax(s) {
            Some(DefaultModel::FloatLiteral(s))
        } else {
            None
        },
        KindRef::String => Some(DefaultModel::String(spec_unescape_str(raw))),
        KindRef::Bytes => match spec_unescape(vstd::utf8::encode_utf8(raw)) {
            Some(b) => Some(DefaultModel::Bytes(b)),
            None => None,
        },
        KindRef::Enum(_) => match enum_values {
            None => None,
            Some(vals) => match enum_value_by_name(vals, s) {
                Some(n) => Some(DefaultModel::EnumNumber(n)),
                None => match spec_parse_i32(s) {
                    Some(n) => Some(DefaultModel::EnumNumber(n as i32)),
                    None => None,
                },
            },
        },
        KindRef::Message(_) => None,
    }
}

fn err_with(prefix: &str, raw: &str) -> (r: String)
    ensures
        r@ == prefix@ + raw@ + seq!['`'],
{
    let mut m = prefix.to_owned();
    m.push_str(raw);
    m.push('`');
    m
}

/// Parse a `[default = …]` literal against the field's resolved kind.
pub fn parse_default_value(raw: &str, kind: KindRef, enum_values: Option<&Vec<EnumValueEntry>>) -> (r:
    Result<DefaultValue, String>)
    ensures
        r is Ok <==> spec_default(
            raw@,
            kind,
            match enum_values {
                Some(v) => Some(v@),
                None => None,
            },
        ) is Some,
        r matches Ok(d) ==> Some(d.model()) == spec_default(
            raw@,
            kind,
            match enum_values {
                Some(v) => Some(v@),
                None => None,
            },
        ),
{
    let cs = chars_of(raw);
    match kind {
        KindRef::Bool => {
            let t = cs.len() == 4 && cs[0] == 't' && cs[1] == 'r' && cs[2] == 'u' && cs[3] == 'e';
            let f = cs.len() == 5 && cs[0] == 'f' && cs[1] == 'a' && cs[2] == 'l' && cs[3] == 's'
                && cs[4] == 'e';
            proof {
                if t {
                    assert(cs@ =~= seq!['t', 'r', 'u', 'e']);
                }
                if f {
                    assert(cs@ =~= seq!['f', 'a', 'l', 's', 'e']);
                }
                if cs@ == seq!['t', 'r', 'u', 'e'] {
                    assert(cs@[0] == 't' && cs@[1] == 'r' && cs@[2] == 'u' && cs@[3] == 'e');
                }
                if cs@ == seq!['f', 'a', 'l', 's', 'e'] {
                    assert(cs@[0] == 'f' && cs@[4] == 'e');
                }
            }
            if t {
                Ok(DefaultValue::Bool(true))
            } else if f {
                Ok(DefaultValue::Bool(false))
            } else {
                Err(err_with("invalid bool default `", raw))
            }
        },
        KindRef::Int32 | KindRef::Sint32 | KindRef::Sfixed32 => match parse_signed_int(raw) {
            Ok(v) => Ok(DefaultValue::I32(crate::wire::i32_of_bits(crate::wire::u64_of_i64(v)))),
            Err(e) => Err(e),
        },
        KindRef::Int64 | KindRef::Sint64 | KindRef::Sfixed64 => match parse_signed_int(raw) {
            Ok(v) => Ok(DefaultValue::I64(v)),
            Err(e) => Err(e),
        },
        KindRef::Uint32 | KindRef::Fixed32 => match parse_unsigned_int(raw) {
            Ok(v) => Ok(DefaultValue::U32((v % 0x1_0000_0000) as u32)),
            Err(e) => Err(e),
        },
        KindRef::Uint64 | KindRef::Fixed64 => match parse_unsigned_int(raw) {
            Ok(v) => Ok(DefaultValue::U64(v)),
            Err(e) => Err(e),
        },
        KindRef::Float | KindRef::Double => {
            assert(cs@.skip(0) =~= cs@);
            if float_syntax_ok(&cs, 0) {
                Ok(DefaultValue::FloatLiteral(raw.to_owned()))
            } else {
                Err(err_with("invalid float `", raw))
            }
        },
        KindRef::String => Ok(DefaultValue::String(decode_c_escapes_str(raw))),
        KindRef::Bytes => match decode_c_escapes_bytes(raw) {
            Ok(b) => Ok(DefaultValue::Bytes(b)),
            Err(e) => Err(e),
        },
        KindRef::Enum(_) => match enum_values {
            None => Err("enum default with no descriptor".to_owned()),
            Some(vals) => {
                let key = raw.to_owned();
                match find_enum_value(vals, &key) {
                    Some(n) => Ok(DefaultValue::EnumNumber(n)),
                    None => {
                        assert(cs@.skip(0) =~= cs@);
                        match parse_i32(&cs, 0) {
                            Some(n) => Ok(DefaultValue::EnumNumber(n)),
                            None => Err(
                                err_with("invalid enum default (no variant of that name) `", raw),
                            ),
                        }
                    },
                }
            },
        },
        KindRef::Message(_) => Err("messages cannot have default values".to_owned()),
    }
}

} // verus!
