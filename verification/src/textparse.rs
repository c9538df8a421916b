//! Parser for the protobuf text format.
//!
//! Scalars, repeated fields (one entry per occurrence, or the short
//! `[a, b, c]` form), nested messages in `{ … }` or `< … >`, map entries
//! written as `{ key: …, value: … }`, enum values by name or number, C
//! escapes in string and bytes literals, and `#` comments are understood.
//!
//! Converting a decimal literal into a floating-point value is not done
//! here: the caller hands in a [`FloatLiterals`] table with the bit
//! patterns of the literals that occur in the input.

use vstd::prelude::*;
use vstd::utf8::{decode_utf8, valid_utf8};

use crate::defaults::{
    enum_value_by_name, find_enum_value, parse_signed_chars, parse_unsigned_chars,
    spec_parse_signed, spec_parse_unsigned,
};
use crate::handles::{EnumDescriptor, FieldDescriptor, MessageDescriptor};
use crate::literal::{decode_c_escapes_bytes, spec_unescape};
use crate::json::first_named;
use crate::message::{
    belongs, field_is_map, fields_of, insert_entry_map, map_entry_kinds, map_kinds,
    push_item_map, ready, set_map, slot_view, sorted_slots, zero_of, DynamicMessage, MessageModel,
    SlotModel,
};
use crate::pool::{Cardinality, DescriptorPool, EnumValueEntry, FieldEntry, KindRef, PoolInner};
use crate::json_roundtrip::lemma_decimal_digits;
use crate::text::{chars_of, digit_char, spec_decimal, string_of};
use crate::textlex::{lexed, tokenize, Token, TokenKind};
use crate::value::{KeyModel, MapKey, Value, ValueModel};
use crate::wire::{i32_of_bits, spec_i32_of_bits, spec_u64_of_int, u64_of_i64};

verus! {

/// Why a text-format parse failed.
pub enum ParseErrorKind {
    /// A character that starts no token.
    InvalidToken,
    /// A token other than the one the grammar needs here.
    UnexpectedToken(String),
    /// The input ended before the message did.
    UnexpectedEof,
    /// A field name the message type does not have.
    UnknownField(String),
    /// A value the field's type rejects (bad number, unknown enum value, …).
    Schema(String),
}

/// A failed parse: 1-based line and column of the token at fault, and why.
pub struct ParseError {
    pub line: u32,
    pub col: u32,
    pub kind: ParseErrorKind,
}

/// Bit patterns of the numeric literals of an input read as floating-point
/// numbers: each entry is a literal's text, the bits of the `f32` and of
/// the `f64` it denotes. A literal that is no valid number has no entry.
pub struct FloatLiterals {
    pub entries: Vec<(String, u32, u64)>,
}

/// The bits the first entry for `text` gives.
pub open spec fn float_bits(entries: Seq<(String, u32, u64)>, text: Seq<char>) -> Option<(u32, u64)>
    decreases entries.len(),
{
    if entries.len() == 0 {
        None
    } else if entries[0].0@ == text {
        Some((entries[0].1, entries[0].2))
    } else {
        float_bits(entries.drop_first(), text)
    }
}

impl FloatLiterals {
    /// An empty table.
    pub fn new() -> (r: FloatLiterals)
        ensures
            r.entries@.len() == 0,
    {
        FloatLiterals { entries: Vec::new() }
    }

    /// Record the bits of literal `text`.
    pub fn insert(&mut self, text: String, single: u32, double: u64)
        ensures
            final(self).entries@ == old(self).entries@.push((text, single, double)),
    {
        self.entries.push((text, single, double));
    }

    /// The bits recorded for `text`.
    pub fn lookup(&self, text: &Vec<char>) -> (r: Option<(u32, u64)>)
        ensures
            r == float_bits(self.entries@, text@),
    {
        let mut i: usize = 0;
        assert(self.entries@.skip(0) =~= self.entries@);
        while i < self.entries.len()
            invariant
                i <= self.entries@.len(),
                float_bits(self.entries@, text@) == float_bits(self.entries@.skip(i as int), text@),
            decreases self.entries@.len() - i,
        {
            assert(self.entries@.skip(i as int).drop_first() =~= self.entries@.skip(i + 1));
            let e = &self.entries[i];
            let ec = chars_of(e.0.as_str());
            if vec_eq(&ec, text) {
                return Some((e.1, e.2));
            }
            i = i + 1;
        }
        None
    }
}

/// Whether two character vectors are equal.
fn vec_eq(a: &Vec<char>, b: &Vec<char>) -> (r: bool)
    ensures
        r == (a@ == b@),
{
    if a.len() != b.len() {
        return false;
    }
    let mut i: usize = 0;
    while i < a.len()
        invariant
            i <= a@.len(),
            a@.len() == b@.len(),
            forall|k: int| 0 <= k < i ==> a@[k] == b@[k],
        decreases a@.len() - i,
    {
        if a[i] != b[i] {
            return false;
        }
        i = i + 1;
    }
    assert(a@ =~= b@);
    true
}

/// Characters `start..end` of `cs`.
fn sub_chars(cs: &Vec<char>, start: usize, end: usize) -> (r: Vec<char>)
    requires
        start <= end <= cs@.len(),
    ensures
        r@ == cs@.subrange(start as int, end as int),
{
    let mut out: Vec<char> = Vec::new();
    let mut i = start;
    while i < end
        invariant
            start <= i <= end <= cs@.len(),
            out@ == cs@.subrange(start as int, i as int),
        decreases end - i,
    {
        out.push(cs[i]);
        i = i + 1;
        assert(out@ =~= cs@.subrange(start as int, i as int));
    }
    out
}

// ── positions ───────────────────────────────────────────────────────────

/// Number of line breaks in `s`.
pub open spec fn newlines(s: Seq<char>) -> nat
    decreases s.len(),
{
    if s.len() == 0 {
        0
    } else {
        newlines(s.drop_last()) + if s.last() == '\n' {
            1nat
        } else {
            0nat
        }
    }
}

/// 1-based column just after `s`: one more than the characters since the
/// last line break.
pub open spec fn column(s: Seq<char>) -> nat
    decreases s.len(),
{
    if s.len() == 0 {
        1
    } else if s.last() == '\n' {
        1
    } else {
        column(s.drop_last()) + 1
    }
}

/// 1-based line and column of character position `pos` of `cs`.
pub fn line_col(cs: &Vec<char>, pos: usize) -> (r: (u32, u32))
    requires
        pos <= cs@.len(),
        pos < usize::MAX,
    ensures
        r.0 == (newlines(cs@.take(pos as int)) + 1) as u32,
        r.1 == column(cs@.take(pos as int)) as u32,
{
    let mut nl: usize = 0;
    let mut col: usize = 1;
    let mut i: usize = 0;
    while i < pos
        invariant
            i <= pos <= cs@.len(),
            pos < usize::MAX,
            nl == newlines(cs@.take(i as int)),
            col == column(cs@.take(i as int)),
            nl <= i,
            1 <= col <= i + 1,
        decreases pos - i,
    {
        assert(cs@.take(i + 1).drop_last() =~= cs@.take(i as int));
        if cs[i] == '\n' {
            nl = nl + 1;
            col = 1;
        } else {
            col = col + 1;
        }
        i = i + 1;
    }
    let line: usize = nl + 1;
    (line as u32, col as u32)
}

// ── scalar values ───────────────────────────────────────────────────────

/// What a single token makes of a value of a scalar or enum kind.
pub enum ScalarRead {
    /// The value.
    Value(ValueModel),
    /// The token has the right shape but the type rejects it.
    Rejected,
    /// The token cannot stand for a value of the kind.
    Mismatch,
}

/// The characters of a quoted literal between its quotes.
pub open spec fn unquoted(text: Seq<char>) -> Seq<char> {
    text.subrange(1, text.len() - 1)
}

/// Bits of the quiet NaN (`f32`, `f64`) a `nan` literal stands for.
pub open spec fn nan_bits() -> (u32, u64) {
    (0x7fc0_0000u32, 0x7ff8_0000_0000_0000u64)
}

/// Bits of positive infinity (`f32`, `f64`).
pub open spec fn inf_bits() -> (u32, u64) {
    (0x7f80_0000u32, 0x7ff0_0000_0000_0000u64)
}

/// The float value of width `k` (`Float` or else `Double`) with bits `b`.
pub open spec fn float_value(k: KindRef, b: (u32, u64)) -> ValueModel {
    if k == KindRef::Float {
        ValueModel::F32(b.0)
    } else {
        ValueModel::F64(b.1)
    }
}

/// The value token `t` with characters `text` gives a field of kind `k`.
/// Integers are read as 64-bit values and narrowed to 32 bits by
/// truncation; floats come from `floats`; enum values are found by name
/// or given by number.
pub open spec fn read_scalar(
    pool: PoolInner,
    k: KindRef,
    t: TokenKind,
    text: Seq<char>,
    floats: Seq<(String, u32, u64)>,
) -> ScalarRead {
    match k {
        KindRef::Bool => if t == TokenKind::Ident && text == "true"@ {
            ScalarRead::Value(ValueModel::Bool(true))
        } else if t == TokenKind::Ident && text == "false"@ {
            ScalarRead::Value(ValueModel::Bool(false))
        } else {
            ScalarRead::Mismatch
        },
        KindRef::Int32 | KindRef::Sint32 | KindRef::Sfixed32 => if t == TokenKind::Int {
            match spec_parse_signed(text, false) {
                Some(v) => ScalarRead::Value(
                    ValueModel::I32(spec_i32_of_bits(spec_u64_of_int(v)) as i32),
                ),
                None => ScalarRead::Rejected,
            }
        } else {
            ScalarRead::Mismatch
        },
        KindRef::Int64 | KindRef::Sint64 | KindRef::Sfixed64 => if t == TokenKind::Int {
            match spec_parse_signed(text, false) {
                Some(v) => ScalarRead::Value(ValueModel::I64(v as i64)),
                None => ScalarRead::Rejected,
            }
        } else {
            ScalarRead::Mismatch
        },
        KindRef::Uint32 | KindRef::Fixed32 => if t == TokenKind::Int {
            match spec_parse_unsigned(text) {
                Some(v) => ScalarRead::Value(ValueModel::U32((v % 0x1_0000_0000) as u32)),
                None => ScalarRead::Rejected,
            }
        } else {
            ScalarRead::Mismatch
        },
        KindRef::Uint64 | KindRef::Fixed64 => if t == TokenKind::Int {
            match spec_parse_unsigned(text) {
                Some(v) => ScalarRead::Value(ValueModel::U64(v as u64)),
                None => ScalarRead::Rejected,
            }
        } else {
            ScalarRead::Mismatch
        },
        KindRef::Float | KindRef::Double => if t == TokenKind::Int || t == TokenKind::Float {
            match float_bits(floats, text) {
                Some(b) => ScalarRead::Value(float_value(k, b)),
                None => ScalarRead::Rejected,
            }
        } else if t == TokenKind::Ident {
            if text == "nan"@ || text == "NaN"@ {
                ScalarRead::Value(float_value(k, nan_bits()))
            } else if text == "inf"@ || text == "infinity"@ || text == "Infinity"@ {
                ScalarRead::Value(float_value(k, inf_bits()))
            } else {
                ScalarRead::Rejected
            }
        } else {
            ScalarRead::Mismatch
        },
        KindRef::String => if t == TokenKind::StringLit {
            match spec_unescape(vstd::utf8::encode_utf8(unquoted(text))) {
                Some(b) => if valid_utf8(b) {
                    ScalarRead::Value(ValueModel::Str(decode_utf8(b)))
                } else {
                    ScalarRead::Rejected
                },
                None => ScalarRead::Rejected,
            }
        } else {
            ScalarRead::Mismatch
        },
        KindRef::Bytes => if t == TokenKind::StringLit {
            match spec_unescape(vstd::utf8::encode_utf8(unquoted(text))) {
                Some(b) => ScalarRead::Value(ValueModel::Bytes(b)),
                None => ScalarRead::Rejected,
            }
        } else {
            ScalarRead::Mismatch
        },
        KindRef::Enum(e) => if t == TokenKind::Ident {
            match enum_value_by_name(pool.enums@[e as int].values@, text) {
                Some(n) => ScalarRead::Value(ValueModel::EnumNumber(n)),
                None => ScalarRead::Rejected,
            }
        } else if t == TokenKind::Int {
            match spec_parse_signed(text, false) {
                Some(v) => ScalarRead::Value(
                    ValueModel::EnumNumber(spec_i32_of_bits(spec_u64_of_int(v)) as i32),
                ),
                None => ScalarRead::Rejected,
            }
        } else {
            ScalarRead::Mismatch
        },
        KindRef::Message(_) => ScalarRead::Mismatch,
    }
}

/// Whether `text` spells `w`.
fn is_word(text: &Vec<char>, w: &str) -> (r: bool)
    ensures
        r == (text@ == w@),
{
    let wc = chars_of(w);
    vec_eq(text, &wc)
}

/// A failed value read: the error, and whether it is reported at the
/// token (integer range errors carry no position).
struct Failure {
    kind: ParseErrorKind,
    located: bool,
}

fn schema(msg: &str, text: &Vec<char>, located: bool) -> (r: Failure)
    ensures
        r.kind is Schema,
        r.located == located,
{
    let mut m = msg.to_owned();
    m.push_str(string_of(text).as_str());
    m.push('`');
    Failure { kind: ParseErrorKind::Schema(m), located }
}

/// Read the value of kind `k` that token `t` (characters `text`) gives;
/// see [`read_scalar`].
fn scalar_value(
    pool: &DescriptorPool,
    k: KindRef,
    t: TokenKind,
    text: &Vec<char>,
    floats: &FloatLiterals,
) -> (r: Result<Value, Failure>)
    requires
        crate::pool::kind_ok(k, pool.view_inner().messages@.len(), pool.view_inner().enums@.len()),
        t == TokenKind::StringLit ==> text@.len() >= 2,
    ensures
        r matches Ok(v) ==> read_scalar(pool.view_inner(), k, t, text@, floats.entries@)
            == ScalarRead::Value(v.model()),
        r is Err ==> !(read_scalar(pool.view_inner(), k, t, text@, floats.entries@) is Value),
        r matches Err(f) ==> (read_scalar(pool.view_inner(), k, t, text@, floats.entries@)
            is Mismatch <==> f.kind is UnexpectedToken),
        r matches Err(f) ==> (f.kind is UnexpectedToken || f.kind is Schema),
{
    let mismatch = Failure {
        kind: ParseErrorKind::UnexpectedToken("value of the wrong kind".to_owned()),
        located: true,
    };
    match k {
        KindRef::Bool => {
            if t == TokenKind::Ident && is_word(text, "true") {
                Ok(Value::Bool(true))
            } else if t == TokenKind::Ident && is_word(text, "false") {
                Ok(Value::Bool(false))
            } else {
                Err(mismatch)
            }
        },
        KindRef::Int32 | KindRef::Sint32 | KindRef::Sfixed32 | KindRef::Int64 | KindRef::Sint64
        | KindRef::Sfixed64 => {
            if t != TokenKind::Int {
                return Err(mismatch);
            }
            match parse_signed_chars(text, false) {
                Some(v) => match k {
                    KindRef::Int64 | KindRef::Sint64 | KindRef::Sfixed64 => Ok(Value::I64(v)),
                    _ => Ok(Value::I32(i32_of_bits(u64_of_i64(v)))),
                },
                None => Err(schema("integer out of range or malformed: `", text, false)),
            }
        },
        KindRef::Uint32 | KindRef::Fixed32 | KindRef::Uint64 | KindRef::Fixed64 => {
            if t != TokenKind::Int {
                return Err(mismatch);
            }
            match parse_unsigned_chars(text) {
                Some(v) => match k {
                    KindRef::Uint64 | KindRef::Fixed64 => Ok(Value::U64(v)),
                    _ => Ok(Value::U32((v % 0x1_0000_0000) as u32)),
                },
                None => Err(schema("invalid integer `", text, false)),
            }
        },
        KindRef::Float | KindRef::Double => {
            let single = match k {
                KindRef::Float => true,
                _ => false,
            };
            let bits = if t == TokenKind::Int || t == TokenKind::Float {
                match floats.lookup(text) {
                    Some(b) => b,
                    None => {
                        return Err(schema("invalid number `", text, true));
                    },
                }
            } else if t == TokenKind::Ident {
                if is_word(text, "nan") || is_word(text, "NaN") {
                    (0x7fc0_0000u32, 0x7ff8_0000_0000_0000u64)
                } else if is_word(text, "inf") || is_word(text, "infinity") || is_word(
                    text,
                    "Infinity",
                ) {
                    (0x7f80_0000u32, 0x7ff0_0000_0000_0000u64)
                } else {
                    return Err(schema("invalid float ident `", text, true));
                }
            } else {
                return Err(mismatch);
            };
            if single {
                Ok(Value::F32(bits.0))
            } else {
                Ok(Value::F64(bits.1))
            }
        },
        KindRef::String | KindRef::Bytes => {
            if t != TokenKind::StringLit {
                return Err(mismatch);
            }
            let inner = sub_chars(text, 1, text.len() - 1);
            let raw = string_of(&inner);
            match decode_c_escapes_bytes(raw.as_str()) {
                Err(e) => Err(Failure { kind: ParseErrorKind::Schema(e), located: true }),
                Ok(bytes) => match k {
                    KindRef::Bytes => Ok(Value::Bytes(bytes)),
                    _ => match String::from_utf8(bytes) {
                        Ok(s) => Ok(Value::String(s)),
                        Err(_) => Err(
                            Failure {
                                kind: ParseErrorKind::Schema("invalid UTF-8 in string".to_owned()),
                                located: true,
                            },
                        ),
                    },
                },
            }
        },
        KindRef::Enum(e) => {
            if t == TokenKind::Ident {
                let name = string_of(text);
                match find_enum_value(&pool.inner_ref().enums[e as usize].values, &name) {
                    Some(n) => Ok(Value::EnumNumber(n)),
                    None => Err(schema("unknown enum variant `", text, true)),
                }
            } else if t == TokenKind::Int {
                match parse_signed_chars(text, false) {
                    Some(v) => Ok(Value::EnumNumber(i32_of_bits(u64_of_i64(v)))),
                    None => Err(schema("integer out of range or malformed: `", text, false)),
                }
            } else {
                Err(mismatch)
            }
        },
        KindRef::Message(_) => Err(mismatch),
    }
}

// ── the token cursor ────────────────────────────────────────────────────

/// The input, its tokens, and how far the parse has got. `span` is where
/// the token read last starts (the end of the input once none is left):
/// errors are reported there.
struct Cursor {
    cs: Vec<char>,
    toks: Vec<Token>,
    pos: usize,
    peeked: bool,
    span: usize,
}

impl Cursor {
    spec fn wf(&self) -> bool {
        &&& self.cs@.len() < usize::MAX
        &&& self.pos <= self.toks@.len()
        &&& self.toks@.len() <= self.cs@.len()
        &&& self.span <= self.cs@.len()
        &&& self.peeked ==> self.pos < self.toks@.len() && self.toks@[self.pos as int].kind
            != TokenKind::Error
        &&& forall|i: int|
            0 <= i < self.toks@.len() ==> (#[trigger] self.toks@[i]).start < self.toks@[i].end
                <= self.cs@.len()
        &&& forall|i: int|
            0 <= i < self.toks@.len() && (#[trigger] self.toks@[i]).kind == TokenKind::StringLit
                ==> self.toks@[i].end - self.toks@[i].start >= 2
    }

    /// The same input and tokens as `other`, read at least as far.
    spec fn follows(&self, other: &Cursor) -> bool {
        &&& self.cs == other.cs
        &&& self.toks == other.toks
        &&& self.pos >= other.pos
    }

    spec fn left(&self) -> int {
        self.toks@.len() - self.pos
    }

    /// Error `kind` at the last token read.
    fn err(&self, kind: ParseErrorKind) -> (r: ParseError)
        requires
            self.wf(),
        ensures
            r.kind == kind,
            r.line == (newlines(self.cs@.take(self.span as int)) + 1) as u32,
            r.col == column(self.cs@.take(self.span as int)) as u32,
    {
        let (line, col) = line_col(&self.cs, self.span);
        ParseError { line, col, kind }
    }

    /// The next token, without consuming it.
    fn peek(&mut self) -> (r: Result<Option<Token>, ParseError>)
        requires
            old(self).wf(),
        ensures
            final(self).wf(),
            final(self).follows(old(self)),
            r matches Ok(Some(t)) ==> final(self).peeked && final(self).pos == old(self).pos
                && t == final(self).toks@[final(self).pos as int],
            r matches Ok(None) ==> final(self).pos == final(self).toks@.len()
                && !final(self).peeked,
            r is Err ==> final(self).pos > old(self).pos && !final(self).peeked,
            r is Ok ==> final(self).pos == old(self).pos,
            r matches Ok(None) ==> old(self).pos >= old(self).toks@.len(),
            r matches Err(e) ==> old(self).pos < old(self).toks@.len() && old(self).toks@[old(
                self,
            ).pos as int].kind == TokenKind::Error && e.kind is InvalidToken,
    {
        if self.peeked {
            return Ok(Some(self.toks[self.pos]));
        }
        if self.pos >= self.toks.len() {
            self.span = self.cs.len();
            return Ok(None);
        }
        let t = self.toks[self.pos];
        self.span = t.start;
        if t.kind == TokenKind::Error {
            self.pos = self.pos + 1;
            return Err(self.err(ParseErrorKind::InvalidToken));
        }
        self.peeked = true;
        Ok(Some(t))
    }

    /// The next token, consumed.
    fn next(&mut self) -> (r: Result<Option<Token>, ParseError>)
        requires
            old(self).wf(),
        ensures
            final(self).wf(),
            final(self).follows(old(self)),
            !final(self).peeked,
            r matches Ok(Some(t)) ==> final(self).pos > old(self).pos && t.start < t.end
                <= final(self).cs@.len() && t.kind != TokenKind::Error && t == final(
                self).toks@[final(self).pos - 1],
            r matches Ok(None) ==> final(self).pos == final(self).toks@.len(),
            r is Err ==> final(self).pos > old(self).pos,
            r matches Ok(Some(t)) ==> final(self).pos == old(self).pos + 1 && t == old(
                self,
            ).toks@[old(self).pos as int],
            r matches Ok(None) ==> old(self).pos >= old(self).toks@.len(),
            r matches Err(e) ==> old(self).pos < old(self).toks@.len() && old(self).toks@[old(
                self,
            ).pos as int].kind == TokenKind::Error && e.kind is InvalidToken,
    {
        match self.peek() {
            Ok(Some(t)) => {
                self.peeked = false;
                self.pos = self.pos + 1;
                Ok(Some(t))
            },
            other => other,
        }
    }

    /// The next token, consumed; at the end of input an error.
    fn require(&mut self) -> (r: Result<Token, ParseError>)
        requires
            old(self).wf(),
        ensures
            final(self).wf(),
            final(self).follows(old(self)),
            !final(self).peeked,
            r matches Ok(t) ==> final(self).pos > old(self).pos && t.start < t.end
                <= final(self).cs@.len() && t.kind != TokenKind::Error && t == final(
                self).toks@[final(self).pos - 1],
            r is Ok ==> final(self).pos == old(self).pos + 1,
            r matches Err(e) ==> (old(self).pos >= old(self).toks@.len() && e.kind is UnexpectedEof)
                || (old(self).pos < old(self).toks@.len() && old(self).toks@[old(self).pos as int].kind
                == TokenKind::Error && e.kind is InvalidToken),
    {
        match self.next() {
            Ok(Some(t)) => Ok(t),
            Ok(None) => Err(self.err(ParseErrorKind::UnexpectedEof)),
            Err(e) => Err(e),
        }
    }

    /// Consume a token of kind `k`.
    fn expect(&mut self, k: TokenKind) -> (r: Result<(), ParseError>)
        requires
            old(self).wf(),
        ensures
            final(self).wf(),
            final(self).follows(old(self)),
            !final(self).peeked,
            r is Ok ==> final(self).pos > old(self).pos,
            r is Ok ==> final(self).pos == old(self).pos + 1 && old(self).toks@[old(self).pos as int].kind
                == k,
            r matches Err(e) ==> (old(self).pos >= old(self).toks@.len() && e.kind is UnexpectedEof)
                || (old(self).pos < old(self).toks@.len() && old(self).toks@[old(self).pos as int].kind
                == TokenKind::Error && e.kind is InvalidToken) || (old(self).pos < old(self).toks@.len()
                && old(self).toks@[old(self).pos as int].kind != TokenKind::Error && old(self).toks@[old(
                self,
            ).pos as int].kind != k && e.kind is UnexpectedToken),
    {
        let t = self.require()?;
        if t.kind == k {
            Ok(())
        } else {
            let mut m = "expected ".to_owned();
            m.push_str(kind_name(k));
            m.push_str(", got ");
            m.push_str(kind_name(t.kind));
            Err(self.err(ParseErrorKind::UnexpectedToken(m)))
        }
    }

    /// The characters of token `t`.
    fn text(&self, t: Token) -> (r: Vec<char>)
        requires
            t.start <= t.end <= self.cs@.len(),
        ensures
            r@ == self.cs@.subrange(t.start as int, t.end as int),
    {
        sub_chars(&self.cs, t.start, t.end)
    }
}

/// Name of a token kind, for messages.
/// What cursor `c` reads, with `pool` and the float table `floats`.
spec fn source_of(pool: PoolInner, c: &Cursor, floats: &FloatLiterals) -> TextSource {
    TextSource { pool, cs: c.cs@, toks: c.toks@, floats: floats.entries@ }
}

/// A value read by [`read_scalar`] fits its kind.
proof fn lemma_read_fits(
    pool: PoolInner,
    k: KindRef,
    t: TokenKind,
    text: Seq<char>,
    floats: Seq<(String, u32, u64)>,
)
    requires
        read_scalar(pool, k, t, text, floats) is Value,
    ensures
        crate::message::kind_fits(pool, k, read_scalar(pool, k, t, text, floats)->Value_0),
{
}

pub open spec fn kind_label(k: TokenKind) -> Seq<char> {
    match k {
        TokenKind::Ident => "identifier"@,
        TokenKind::Int => "integer"@,
        TokenKind::Float => "float"@,
        TokenKind::StringLit => "string"@,
        TokenKind::Colon => "`:`"@,
        TokenKind::LBrace => "`{`"@,
        TokenKind::RBrace => "`}`"@,
        TokenKind::LAngle => "`<`"@,
        TokenKind::RAngle => "`>`"@,
        TokenKind::LBracket => "`[`"@,
        TokenKind::RBracket => "`]`"@,
        TokenKind::Comma => "`,`"@,
        TokenKind::Semicolon => "`;`"@,
        TokenKind::Dot => "`.`"@,
        TokenKind::Slash => "`/`"@,
        TokenKind::Error => "invalid token"@,
    }
}

fn kind_name(k: TokenKind) -> (r: &'static str)
    ensures
        r@ == kind_label(k),
{
    match k {
        TokenKind::Ident => "identifier",
        TokenKind::Int => "integer",
        TokenKind::Float => "float",
        TokenKind::StringLit => "string",
        TokenKind::Colon => "`:`",
        TokenKind::LBrace => "`{`",
        TokenKind::RBrace => "`}`",
        TokenKind::LAngle => "`<`",
        TokenKind::RAngle => "`>`",
        TokenKind::LBracket => "`[`",
        TokenKind::RBracket => "`]`",
        TokenKind::Comma => "`,`",
        TokenKind::Semicolon => "`;`",
        TokenKind::Dot => "`.`",
        TokenKind::Slash => "`/`",
        TokenKind::Error => "invalid token",
    }
}


// ── the grammar ─────────────────────────────────────────────────────────

/// `m` is a well-formed message of type `desc`.
pub open spec fn message_of(m: MessageModel, desc: &MessageDescriptor) -> bool {
    m.pool == desc.pool_view() && m.index == desc.index()
}

// ── the grammar as a function of the tokens ─────────────────────────────

/// What a failed parse reports, without its position.
pub enum Fault {
    InvalidToken,
    UnexpectedToken,
    UnexpectedEof,
    UnknownField,
    Schema,
}

/// The fault an error kind stands for.
pub open spec fn fault_of(k: ParseErrorKind) -> Fault {
    match k {
        ParseErrorKind::InvalidToken => Fault::InvalidToken,
        ParseErrorKind::UnexpectedToken(_) => Fault::UnexpectedToken,
        ParseErrorKind::UnexpectedEof => Fault::UnexpectedEof,
        ParseErrorKind::UnknownField(_) => Fault::UnknownField,
        ParseErrorKind::Schema(_) => Fault::Schema,
    }
}

/// What a parse reads: the pool, the characters, their tokens and the
/// table of float literals.
pub struct TextSource {
    pub pool: PoolInner,
    pub cs: Seq<char>,
    pub toks: Seq<Token>,
    pub floats: Seq<(String, u32, u64)>,
}

impl TextSource {
    /// Kind of token `i`.
    pub open spec fn kind(self, i: int) -> TokenKind {
        self.toks[i].kind
    }

    /// Characters of token `i`.
    pub open spec fn text(self, i: int) -> Seq<char> {
        self.cs.subrange(self.toks[i].start as int, self.toks[i].end as int)
    }

    /// What taking token `i` fails with, if it does: the end of the
    /// input, or a character that starts no token.
    pub open spec fn take_fault(self, i: int) -> Option<Fault> {
        if i >= self.toks.len() {
            Some(Fault::UnexpectedEof)
        } else if self.kind(i) == TokenKind::Error {
            Some(Fault::InvalidToken)
        } else {
            None
        }
    }

    /// Token `i` is a present, valid token that opens a message.
    pub open spec fn opens(self, i: int) -> bool {
        i < self.toks.len() && (self.kind(i) == TokenKind::LBrace || self.kind(i)
            == TokenKind::LAngle)
    }
}

/// The closing bracket for opener `k`.
pub open spec fn closer_for(k: TokenKind) -> TokenKind {
    if k == TokenKind::LBrace {
        TokenKind::RBrace
    } else {
        TokenKind::RAngle
    }
}

/// The first of `fs` whose JSON name is `name`.
pub open spec fn first_json_named(fs: Seq<FieldEntry>, name: Seq<char>) -> Option<FieldEntry>
    decreases fs.len(),
{
    if fs.len() == 0 {
        None
    } else if fs[0].json_name@ == name {
        Some(fs[0])
    } else {
        first_json_named(fs.drop_first(), name)
    }
}

/// The field a name in the text selects: the first field with that name,
/// else the first with that JSON name.
pub open spec fn text_field_named(fs: Seq<FieldEntry>, name: Seq<char>) -> Option<FieldEntry> {
    match first_named(fs, name) {
        Some(f) => Some(f),
        None => first_json_named(fs, name),
    }
}

/// The map key a scalar value stands for.
pub open spec fn key_of_value(v: ValueModel) -> Option<KeyModel> {
    match v {
        ValueModel::Bool(b) => Some(KeyModel::Bool(b)),
        ValueModel::I32(x) => Some(KeyModel::I32(x)),
        ValueModel::I64(x) => Some(KeyModel::I64(x)),
        ValueModel::U32(x) => Some(KeyModel::U32(x)),
        ValueModel::U64(x) => Some(KeyModel::U64(x)),
        ValueModel::Str(s) => Some(KeyModel::Str(s)),
        _ => None,
    }
}

/// The message of type `msg` whose fields are `mp`.
pub open spec fn message_from(pool: PoolInner, msg: u32, mp: Map<u32, SlotModel>) -> MessageModel {
    MessageModel { pool, index: msg, slots: sorted_slots(mp) }
}

/// Read the fields of a message of type `msg` from token `pos` on into
/// `mp`, up to `closer` (taken) or, when there is none, to the end of the
/// input: the fields and the index of the next token.
pub open spec fn text_fields(
    src: TextSource,
    msg: u32,
    mp: Map<u32, SlotModel>,
    pos: int,
    closer: Option<TokenKind>,
) -> Result<(Map<u32, SlotModel>, int), Fault>
    decreases src.toks.len() - pos, 4nat,
{
    if pos >= src.toks.len() {
        if closer is Some {
            Err(Fault::UnexpectedEof)
        } else {
            Ok((mp, pos))
        }
    } else if src.kind(pos) == TokenKind::Error {
        Err(Fault::InvalidToken)
    } else if closer == Some(src.kind(pos)) {
        Ok((mp, pos + 1))
    } else if src.kind(pos) == TokenKind::Ident {
        match text_field_named(fields_of(src.pool, msg), src.text(pos)) {
            None => Err(Fault::UnknownField),
            Some(f) => match text_field_value(src, msg, f, mp, pos + 1) {
                Err(e) => Err(e),
                Ok((mp2, q)) => if pos < q <= src.toks.len() {
                    text_fields(src, msg, mp2, q, closer)
                } else {
                    Err(Fault::UnexpectedEof)
                },
            },
        }
    } else if src.kind(pos) == TokenKind::Semicolon {
        text_fields(src, msg, mp, pos + 1, closer)
    } else {
        Err(Fault::UnexpectedToken)
    }
}

/// Read the value of field `f` (its name read, token `pos` next) into `mp`.
pub open spec fn text_field_value(
    src: TextSource,
    msg: u32,
    f: FieldEntry,
    mp: Map<u32, SlotModel>,
    pos: int,
) -> Result<(Map<u32, SlotModel>, int), Fault>
    decreases src.toks.len() - pos, 3nat,
{
    if pos < src.toks.len() && src.kind(pos) == TokenKind::Error {
        Err(Fault::InvalidToken)
    } else if !src.opens(pos) && pos >= src.toks.len() {
        Err(Fault::UnexpectedEof)
    } else if !src.opens(pos) && src.kind(pos) != TokenKind::Colon {
        Err(Fault::UnexpectedToken)
    } else {
        let p = if src.opens(pos) {
            pos
        } else {
            pos + 1
        };
        if field_is_map(src.pool, f) {
            text_map_entry(src, msg, f, mp, p)
        } else if f.cardinality == Cardinality::Repeated {
            if p < src.toks.len() && src.kind(p) == TokenKind::Error {
                Err(Fault::InvalidToken)
            } else if p < src.toks.len() && src.kind(p) == TokenKind::LBracket {
                text_list(src, msg, f, mp, p + 1)
            } else {
                match text_single(src, f.kind, p) {
                    Err(e) => Err(e),
                    Ok((v, q)) => Ok((
                        push_item_map(
                            ready(src.pool, msg, f, mp, ValueModel::List(seq![])),
                            f.number,
                            v,
                        ),
                        q,
                    )),
                }
            }
        } else {
            match text_single(src, f.kind, p) {
                Err(e) => Err(e),
                Ok((v, q)) => Ok((set_map(src.pool, msg, f, mp, v), q)),
            }
        }
    }
}

/// Read the items of a `[a, b, …]` list of field `f` (its `[` read, token
/// `pos` next) into `mp`.
pub open spec fn text_list(
    src: TextSource,
    msg: u32,
    f: FieldEntry,
    mp: Map<u32, SlotModel>,
    pos: int,
) -> Result<(Map<u32, SlotModel>, int), Fault>
    decreases src.toks.len() - pos, 2nat,
{
    match text_single(src, f.kind, pos) {
        Err(e) => Err(e),
        Ok((v, q)) => if pos < q <= src.toks.len() {
            let mp2 = push_item_map(
                ready(src.pool, msg, f, mp, ValueModel::List(seq![])),
                f.number,
                v,
            );
            if q >= src.toks.len() {
                Err(Fault::UnexpectedToken)
            } else if src.kind(q) == TokenKind::Error {
                Err(Fault::InvalidToken)
            } else if src.kind(q) == TokenKind::RBracket {
                Ok((mp2, q + 1))
            } else if src.kind(q) != TokenKind::Comma {
                Err(Fault::UnexpectedToken)
            } else {
                text_list(src, msg, f, mp2, q + 1)
            }
        } else {
            Err(Fault::UnexpectedEof)
        },
    }
}

/// Read one `{ key: …, value: … }` entry of map field `f` (token `pos`
/// next) into `mp`.
pub open spec fn text_map_entry(
    src: TextSource,
    msg: u32,
    f: FieldEntry,
    mp: Map<u32, SlotModel>,
    pos: int,
) -> Result<(Map<u32, SlotModel>, int), Fault>
    decreases src.toks.len() - pos, 2nat,
{
    match src.take_fault(pos) {
        Some(e) => Err(e),
        None => if !src.opens(pos) {
            Err(Fault::UnexpectedToken)
        } else {
            match map_kinds(src.pool, f) {
                None => Err(Fault::Schema),
                Some((kk, vk)) => entry_outcome(
                    src.pool,
                    msg,
                    f,
                    mp,
                    kk,
                    vk,
                    text_entry_body(src, kk, vk, closer_for(src.kind(pos)), None, None, pos + 1),
                ),
            }
        },
    }
}

/// What a map entry whose parts read as `body` puts into `mp`: a missing
/// key or value is the zero value of its kind.
pub open spec fn entry_outcome(
    pool: PoolInner,
    msg: u32,
    f: FieldEntry,
    mp: Map<u32, SlotModel>,
    kk: KindRef,
    vk: KindRef,
    body: Result<(Option<ValueModel>, Option<ValueModel>, int), Fault>,
) -> Result<(Map<u32, SlotModel>, int), Fault> {
    match body {
        Err(e) => Err(e),
        Ok((key, value, q)) => {
            let kv = match key {
                Some(v) => v,
                None => zero_of(pool, kk),
            };
            let vv = match value {
                Some(v) => v,
                None => zero_of(pool, vk),
            };
            match key_of_value(kv) {
                None => Err(Fault::Schema),
                Some(k) => Ok((insert_entry_map(pool, msg, f, mp, k, vv), q)),
            }
        },
    }
}

/// Read the `key: …` and `value: …` parts of a map entry from token `pos`
/// on, up to `closer` (taken): the last key and value read, and the index
/// of the next token.
pub open spec fn text_entry_body(
    src: TextSource,
    kk: KindRef,
    vk: KindRef,
    closer: TokenKind,
    key: Option<ValueModel>,
    value: Option<ValueModel>,
    pos: int,
) -> Result<(Option<ValueModel>, Option<ValueModel>, int), Fault>
    decreases src.toks.len() - pos, 1nat,
{
    match src.take_fault(pos) {
        Some(e) => Err(e),
        None => if src.kind(pos) == closer {
            Ok((key, value, pos + 1))
        } else if src.kind(pos) != TokenKind::Ident {
            Err(Fault::UnexpectedToken)
        } else {
            match src.take_fault(pos + 1) {
                Some(e) => Err(e),
                None => if src.kind(pos + 1) != TokenKind::Colon {
                    Err(Fault::UnexpectedToken)
                } else if src.text(pos) == "key"@ {
                    match text_single(src, kk, pos + 2) {
                        Err(e) => Err(e),
                        Ok((v, q)) => if pos < q <= src.toks.len() {
                            text_entry_body(src, kk, vk, closer, Some(v), value, q)
                        } else {
                            Err(Fault::UnexpectedEof)
                        },
                    }
                } else if src.text(pos) == "value"@ {
                    match text_single(src, vk, pos + 2) {
                        Err(e) => Err(e),
                        Ok((v, q)) => if pos < q <= src.toks.len() {
                            text_entry_body(src, kk, vk, closer, key, Some(v), q)
                        } else {
                            Err(Fault::UnexpectedEof)
                        },
                    }
                } else {
                    Err(Fault::UnknownField)
                },
            }
        },
    }
}

/// Read one value of kind `k` from token `pos` on: a message in brackets,
/// or a single token.
pub open spec fn text_single(src: TextSource, k: KindRef, pos: int) -> Result<
    (ValueModel, int),
    Fault,
>
    decreases src.toks.len() - pos, 0nat,
{
    match src.take_fault(pos) {
        Some(e) => Err(e),
        None => match k {
            KindRef::Message(i) => if !src.opens(pos) {
                Err(Fault::UnexpectedToken)
            } else {
                match text_fields(src, i, Map::empty(), pos + 1, Some(closer_for(src.kind(pos)))) {
                    Err(e) => Err(e),
                    Ok((mp, q)) => Ok((ValueModel::Message(message_from(src.pool, i, mp)), q)),
                }
            },
            _ => match read_scalar(src.pool, k, src.kind(pos), src.text(pos), src.floats) {
                ScalarRead::Value(v) => Ok((v, pos + 1)),
                ScalarRead::Rejected => Err(Fault::Schema),
                ScalarRead::Mismatch => Err(Fault::UnexpectedToken),
            },
        },
    }
}

/// What parsing `cs` as a message of type `msg` gives.
pub open spec fn text_parse(
    pool: PoolInner,
    msg: u32,
    cs: Seq<char>,
    floats: Seq<(String, u32, u64)>,
) -> Result<MessageModel, Fault> {
    let src = TextSource { pool, cs, toks: lexed(cs), floats };
    match text_fields(src, msg, Map::empty(), 0, None) {
        Ok((mp, _)) => Ok(message_from(pool, msg, mp)),
        Err(e) => Err(e),
    }
}

/// The closing bracket that matches opener `k`, if `k` opens a message.
fn closer_of(k: TokenKind) -> (r: Option<TokenKind>)
    ensures
        r is Some <==> (k == TokenKind::LBrace || k == TokenKind::LAngle),
        r is Some ==> r->0 == closer_for(k),
{
    match k {
        TokenKind::LBrace => Some(TokenKind::RBrace),
        TokenKind::LAngle => Some(TokenKind::RAngle),
        _ => None,
    }
}

fn unexpected(c: &Cursor, what: &str, got: TokenKind) -> (r: ParseError)
    requires
        c.wf(),
    ensures
        r.kind is UnexpectedToken,
{
    let mut m = "expected ".to_owned();
    m.push_str(what);
    m.push_str(", got ");
    m.push_str(kind_name(got));
    c.err(ParseErrorKind::UnexpectedToken(m))
}

pub proof fn lemma_first_json_named_at(fs: Seq<FieldEntry>, name: Seq<char>, i: int)
    requires
        0 <= i < fs.len(),
        fs[i].json_name@ == name,
        forall|k: int| 0 <= k < i ==> #[trigger] fs[k].json_name@ != name,
    ensures
        first_json_named(fs, name) == Some(fs[i]),
    decreases i,
{
    if i > 0 {
        let t = fs.drop_first();
        assert forall|k: int| 0 <= k < i - 1 implies #[trigger] t[k].json_name@ != name by {
            assert(t[k] == fs[k + 1]);
        }
        assert(fs[0].json_name@ != name);
        lemma_first_json_named_at(t, name, i - 1);
    }
}

pub proof fn lemma_first_json_named_none(fs: Seq<FieldEntry>, name: Seq<char>)
    requires
        forall|k: int| 0 <= k < fs.len() ==> #[trigger] fs[k].json_name@ != name,
    ensures
        first_json_named(fs, name) is None,
    decreases fs.len(),
{
    if fs.len() > 0 {
        let t = fs.drop_first();
        assert forall|k: int| 0 <= k < t.len() implies #[trigger] t[k].json_name@ != name by {
            assert(t[k] == fs[k + 1]);
        }
        assert(fs[0].json_name@ != name);
        lemma_first_json_named_none(t, name);
    }
}

/// The field of `desc` a name in the text selects (see [`text_field_named`]).
fn field_for_name(desc: &MessageDescriptor, name: &str) -> (r: Option<FieldDescriptor>)
    ensures
        match r {
            Some(f) => f.pool_view() == desc.pool_view() && f.message() == desc.index()
                && text_field_named(fields_of(desc.pool_view(), desc.index()), name@) == Some(
                f.entry(),
            ),
            None => text_field_named(fields_of(desc.pool_view(), desc.index()), name@) is None,
        },
{
    let ghost fs = fields_of(desc.pool_view(), desc.index());
    match desc.get_field_by_name(name) {
        Some(f) => {
            proof {
                assert(fs == desc.entry().fields@);
                crate::json::lemma_first_named_at(fs, name@, f.index() as int);
            }
            Some(f)
        },
        None => {
            proof {
                assert(fs == desc.entry().fields@);
                crate::json::lemma_first_named_none(fs, name@);
            }
            let r = desc.get_field_by_json_name(name);
            proof {
                if r is Some {
                    lemma_first_json_named_at(fs, name@, r->0.index() as int);
                } else {
                    lemma_first_json_named_none(fs, name@);
                }
            }
            r
        },
    }
}

/// Read fields into `msg` until `closer` (consumed), or until the end of
/// input when `closer` is `None`.
fn parse_fields(
    c: &mut Cursor,
    desc: &MessageDescriptor,
    msg: &mut DynamicMessage,
    closer: Option<TokenKind>,
    floats: &FloatLiterals,
) -> (r: Result<(), ParseError>)
    requires
        old(c).wf(),
        old(msg).wf(),
        message_of(old(msg).model(), desc),
    ensures
        final(c).wf(),
        final(c).follows(old(c)),
        final(msg).wf(),
        message_of(final(msg).model(), desc),
        r is Ok ==> text_fields(
            source_of(desc.pool_view(), old(c), floats),
            desc.index(),
            slot_view(old(msg).model().slots),
            old(c).pos as int,
            closer,
        ) == Ok::<(Map<u32, SlotModel>, int), Fault>((
            slot_view(final(msg).model().slots),
            final(c).pos as int,
        )),
        r matches Err(e) ==> text_fields(
            source_of(desc.pool_view(), old(c), floats),
            desc.index(),
            slot_view(old(msg).model().slots),
            old(c).pos as int,
            closer,
        ) == Err::<(Map<u32, SlotModel>, int), Fault>(fault_of(e.kind)),
    decreases old(c).left(), 3int,
{
    let ghost src = source_of(desc.pool_view(), c, floats);
    let ghost target = text_fields(
        src,
        desc.index(),
        slot_view(msg.model().slots),
        c.pos as int,
        closer,
    );
    loop
        invariant
            c.wf(),
            c.follows(old(c)),
            msg.wf(),
            message_of(msg.model(), desc),
            src == source_of(desc.pool_view(), old(c), floats),
            target == text_fields(
                src,
                desc.index(),
                slot_view(old(msg).model().slots),
                old(c).pos as int,
                closer,
            ),
            target == text_fields(src, desc.index(), slot_view(msg.model().slots), c.pos as int, closer),
        decreases c.left(),
    {
        let ghost pos = c.pos as int;
        let t = match c.peek()? {
            Some(t) => t,
            None => {
                if closer.is_some() {
                    return Err(c.err(ParseErrorKind::UnexpectedEof));
                }
                return Ok(());
            },
        };
        if let Some(k) = closer {
            if t.kind == k {
                c.next()?;
                return Ok(());
            }
        }
        if t.kind == TokenKind::Ident {
            c.next()?;
            let name = c.text(t);
            let name_str = string_of(&name);
            proof {
                assert(name_str@ == src.text(pos));
            }
            let field = match field_for_name(desc, name_str.as_str()) {
                Some(f) => f,
                None => {
                    return Err(c.err(ParseErrorKind::UnknownField(name_str)));
                },
            };
            proof {
                assert(source_of(field.pool_view(), c, floats) == src);
            }
            parse_field_value(c, &field, msg, floats)?;
        } else if t.kind == TokenKind::Semicolon {
            c.next()?;
        } else {
            return Err(unexpected(c, "field name", t.kind));
        }
    }
}

/// Read the value of `field` after its name, and store it in `msg`.
fn parse_field_value(
    c: &mut Cursor,
    field: &FieldDescriptor,
    msg: &mut DynamicMessage,
    floats: &FloatLiterals,
) -> (r: Result<(), ParseError>)
    requires
        old(c).wf(),
        old(msg).wf(),
        belongs(old(msg).model(), field),
    ensures
        final(c).wf(),
        final(c).follows(old(c)),
        final(msg).wf(),
        final(msg).model().pool == old(msg).model().pool,
        final(msg).model().index == old(msg).model().index,
        r is Ok ==> text_field_value(
            source_of(field.pool_view(), old(c), floats),
            old(msg).model().index,
            field.entry(),
            slot_view(old(msg).model().slots),
            old(c).pos as int,
        ) == Ok::<(Map<u32, SlotModel>, int), Fault>((
            slot_view(final(msg).model().slots),
            final(c).pos as int,
        )),
        r matches Err(e) ==> text_field_value(
            source_of(field.pool_view(), old(c), floats),
            old(msg).model().index,
            field.entry(),
            slot_view(old(msg).model().slots),
            old(c).pos as int,
        ) == Err::<(Map<u32, SlotModel>, int), Fault>(fault_of(e.kind)),
    decreases old(c).left(), 2int,
{
    let ghost src = source_of(field.pool_view(), c, floats);
    let ghost pos = c.pos as int;
    let ghost idx = msg.model().index;
    let ghost f = field.entry();
    let ghost mp = slot_view(msg.model().slots);
    let ghost target = text_field_value(src, idx, f, mp, pos);
    let is_brace = match c.peek()? {
        Some(t) => t.kind == TokenKind::LBrace || t.kind == TokenKind::LAngle,
        None => false,
    };
    proof {
        assert(is_brace == src.opens(pos));
    }
    if !is_brace {
        c.expect(TokenKind::Colon)?;
    }
    let ghost p = c.pos as int;
    proof {
        assert(p == if src.opens(pos) {
            pos
        } else {
            pos + 1
        });
        assert(source_of(field.pool_view(), c, floats) == src);
    }
    let k = field.kind_ref();
    let desc = field.parent_message();
    if field.is_map() {
        return parse_map_entry(c, field, msg, floats);
    }
    if field.cardinality() == Cardinality::Repeated {
        let bracket = match c.peek()? {
            Some(t) => t.kind == TokenKind::LBracket,
            None => false,
        };
        if bracket {
            c.next()?;
            loop
                invariant
                    c.wf(),
                    c.follows(old(c)),
                    msg.wf(),
                    msg.model().pool == old(msg).model().pool,
                    msg.model().index == old(msg).model().index,
                    belongs(msg.model(), field),
                    k == field.entry().kind,
                    field.entry().cardinality == Cardinality::Repeated,
                    !field_is_map(field.pool_view(), field.entry()),
                    desc.pool_view() == field.pool_view(),
                    crate::pool::kind_ok(k, field.pool_view().messages@.len(), field.pool_view().enums@.len()),
                    c.pos > old(c).pos,
                    src == source_of(field.pool_view(), old(c), floats),
                    idx == old(msg).model().index,
                    f == field.entry(),
                    target == text_field_value(
                        src,
                        idx,
                        f,
                        slot_view(old(msg).model().slots),
                        old(c).pos as int,
                    ),
                    target == text_list(src, idx, f, slot_view(msg.model().slots), c.pos as int),
                decreases c.left(),
            {
                let v = parse_singular(c, &desc, k, floats)?;
                msg.ensure_list(field);
                msg.push_list_item(field, v);
                match c.next()? {
                    Some(t) => {
                        if t.kind == TokenKind::RBracket {
                            return Ok(());
                        }
                        if t.kind != TokenKind::Comma {
                            return Err(unexpected(c, "`,` or `]`", t.kind));
                        }
                    },
                    None => {
                        let m = "expected `,` or `]`, got end of input".to_owned();
                        return Err(c.err(ParseErrorKind::UnexpectedToken(m)));
                    },
                }
            }
        }
        let v = parse_singular(c, &desc, k, floats)?;
        msg.ensure_list(field);
        msg.push_list_item(field, v);
        return Ok(());
    }
    let v = parse_singular(c, &desc, k, floats)?;
    let ghost before = msg.model().slots;
    let ghost vm = v.model();
    msg.set_field(field, v);
    proof {
        crate::message::lemma_set_view(
            msg.model().pool,
            msg.model().index,
            field.entry(),
            before,
            msg.model().slots,
            vm,
        );
    }
    Ok(())
}

/// Read one `{ key: …, value: … }` entry of map field `field` into `msg`.
fn parse_map_entry(
    c: &mut Cursor,
    field: &FieldDescriptor,
    msg: &mut DynamicMessage,
    floats: &FloatLiterals,
) -> (r: Result<(), ParseError>)
    requires
        old(c).wf(),
        old(msg).wf(),
        belongs(old(msg).model(), field),
        field_is_map(field.pool_view(), field.entry()),
    ensures
        final(c).wf(),
        final(c).follows(old(c)),
        final(msg).wf(),
        final(msg).model().pool == old(msg).model().pool,
        final(msg).model().index == old(msg).model().index,
        r is Ok ==> text_map_entry(
            source_of(field.pool_view(), old(c), floats),
            old(msg).model().index,
            field.entry(),
            slot_view(old(msg).model().slots),
            old(c).pos as int,
        ) == Ok::<(Map<u32, SlotModel>, int), Fault>((
            slot_view(final(msg).model().slots),
            final(c).pos as int,
        )),
        r matches Err(e) ==> text_map_entry(
            source_of(field.pool_view(), old(c), floats),
            old(msg).model().index,
            field.entry(),
            slot_view(old(msg).model().slots),
            old(c).pos as int,
        ) == Err::<(Map<u32, SlotModel>, int), Fault>(fault_of(e.kind)),
    decreases old(c).left(), 1int,
{
    let ghost src = source_of(field.pool_view(), c, floats);
    let ghost pos = c.pos as int;
    let ghost idx = msg.model().index;
    let ghost f = field.entry();
    let ghost mp = slot_view(msg.model().slots);
    let opener = c.require()?;
    let closer = match closer_of(opener.kind) {
        Some(k) => k,
        None => {
            return Err(unexpected(c, "`{` or `<`", opener.kind));
        },
    };
    let (kk, vk) = match map_entry_kinds(field) {
        Some(p) => p,
        None => {
            return Err(c.err(ParseErrorKind::Schema("not a map field".to_owned())));
        },
    };
    let desc = field.parent_message();
    let _pool = desc.pool_ref().inner_ref();
    proof {
        crate::message::lemma_map_kinds_ok(field.pool_view(), field.entry());
    }
    let ghost target = text_map_entry(src, idx, f, mp, pos);
    let mut key: Option<Value> = None;
    let mut value: Option<Value> = None;
    proof {
        assert(target == entry_outcome(
            src.pool,
            idx,
            f,
            mp,
            kk,
            vk,
            text_entry_body(src, kk, vk, closer, None, None, c.pos as int),
        ));
    }
    loop
        invariant_except_break
            target == entry_outcome(
                src.pool,
                idx,
                f,
                mp,
                kk,
                vk,
                text_entry_body(
                    src,
                    kk,
                    vk,
                    closer,
                    match key {
                        Some(v) => Some(v.model()),
                        None => None,
                    },
                    match value {
                        Some(v) => Some(v.model()),
                        None => None,
                    },
                    c.pos as int,
                ),
            ),
        invariant
            c.wf(),
            c.follows(old(c)),
            c.pos > old(c).pos,
            msg.wf(),
            msg.model() == old(msg).model(),
            desc.pool_view() == field.pool_view(),
            crate::pool::kind_ok(kk, field.pool_view().messages@.len(), field.pool_view().enums@.len()),
            crate::pool::kind_ok(vk, field.pool_view().messages@.len(), field.pool_view().enums@.len()),
            src == source_of(field.pool_view(), old(c), floats),
            mp == slot_view(old(msg).model().slots),
            idx == old(msg).model().index,
            f == field.entry(),
            map_kinds(field.pool_view(), field.entry()) == Some((kk, vk)),
            target == text_map_entry(src, idx, f, mp, old(c).pos as int),
        ensures
            target == entry_outcome(
                src.pool,
                idx,
                f,
                mp,
                kk,
                vk,
                Ok::<(Option<ValueModel>, Option<ValueModel>, int), Fault>((
                    match key {
                        Some(v) => Some(v.model()),
                        None => None,
                    },
                    match value {
                        Some(v) => Some(v.model()),
                        None => None,
                    },
                    c.pos as int,
                )),
            ),
        decreases c.left(),
    {
        let ghost lp = c.pos as int;
        let next = c.require()?;
        if next.kind == closer {
            break;
        }
        if next.kind != TokenKind::Ident {
            return Err(unexpected(c, "`key` or `value`", next.kind));
        }
        let name = c.text(next);
        proof {
            assert(name@ == src.text(lp));
        }
        c.expect(TokenKind::Colon)?;
        if is_word(&name, "key") {
            key = Some(parse_singular(c, &desc, kk, floats)?);
        } else if is_word(&name, "value") {
            value = Some(parse_singular(c, &desc, vk, floats)?);
        } else {
            return Err(c.err(ParseErrorKind::UnknownField(string_of(&name))));
        }
    }
    let key = match key {
        Some(v) => v,
        None => crate::message::zero_value_pub(&desc, kk),
    };
    let value = match value {
        Some(v) => v,
        None => crate::message::zero_value_pub(&desc, vk),
    };
    let mk = match map_key_of(key) {
        Some(k) => k,
        None => {
            return Err(c.err(ParseErrorKind::Schema("invalid map key".to_owned())));
        },
    };
    msg.insert_map_entry(field, mk, value);
    Ok(())
}

/// The map key a scalar value stands for.
fn map_key_of(v: Value) -> (r: Option<MapKey>)
    ensures
        r matches Some(k) ==> match (v.model(), k.model()) {
            (ValueModel::Bool(a), KeyModel::Bool(b)) => a == b,
            (ValueModel::I32(a), KeyModel::I32(b)) => a == b,
            (ValueModel::I64(a), KeyModel::I64(b)) => a == b,
            (ValueModel::U32(a), KeyModel::U32(b)) => a == b,
            (ValueModel::U64(a), KeyModel::U64(b)) => a == b,
            (ValueModel::Str(a), KeyModel::Str(b)) => a == b,
            _ => false,
        },
        r is None <==> !(v.model() is Bool || v.model() is I32 || v.model() is I64
            || v.model() is U32 || v.model() is U64 || v.model() is Str),
        match r {
            Some(k) => key_of_value(v.model()) == Some(k.model()),
            None => key_of_value(v.model()) is None,
        },
{
    match v {
        Value::Bool(b) => Some(MapKey::Bool(b)),
        Value::I32(x) => Some(MapKey::I32(x)),
        Value::I64(x) => Some(MapKey::I64(x)),
        Value::U32(x) => Some(MapKey::U32(x)),
        Value::U64(x) => Some(MapKey::U64(x)),
        Value::String(s) => Some(MapKey::String(s)),
        _ => None,
    }
}

/// Read one value of kind `k`: a message in brackets, or a single token.
fn parse_singular(c: &mut Cursor, desc: &MessageDescriptor, k: KindRef, floats: &FloatLiterals) -> (r:
    Result<Value, ParseError>)
    requires
        old(c).wf(),
        crate::pool::kind_ok(k, desc.pool_view().messages@.len(), desc.pool_view().enums@.len()),
    ensures
        final(c).wf(),
        final(c).follows(old(c)),
        r is Ok ==> final(c).pos > old(c).pos,
        r matches Ok(v) ==> !(k is Message) ==> read_scalar(
            desc.pool_view(),
            k,
            final(c).toks@[final(c).pos - 1].kind,
            final(c).cs@.subrange(
                final(c).toks@[final(c).pos - 1].start as int,
                final(c).toks@[final(c).pos - 1].end as int,
            ),
            floats.entries@,
        ) == ScalarRead::Value(v.model()),
        r matches Ok(v) ==> k matches KindRef::Message(i) ==> v.model() matches ValueModel::Message(
            m,
        ) && m.pool == desc.pool_view() && m.index == i,
        r matches Ok(v) ==> text_single(source_of(desc.pool_view(), old(c), floats), k, old(c).pos as int)
            == Ok::<(ValueModel, int), Fault>((v.model(), final(c).pos as int)),
        r matches Err(e) ==> text_single(source_of(desc.pool_view(), old(c), floats), k, old(c).pos as int)
            == Err::<(ValueModel, int), Fault>(fault_of(e.kind)),
        r matches Ok(v) ==> crate::message::kind_fits(desc.pool_view(), k, v.model()),
    decreases old(c).left(), 0int,
{
    let ghost src = source_of(desc.pool_view(), c, floats);
    let ghost pos = c.pos as int;
    if let KindRef::Message(i) = k {
        let opener = c.require()?;
        let closer = match closer_of(opener.kind) {
            Some(k) => k,
            None => {
                return Err(unexpected(c, "`{` or `<` for a message", opener.kind));
            },
        };
        let d = MessageDescriptor::new(desc.pool_ref().clone_handle(), i);
        let mut inner = DynamicMessage::new(d.clone_handle());
        proof {
            assert(slot_view(inner.model().slots) =~= Map::<u32, SlotModel>::empty());
            assert(source_of(d.pool_view(), c, floats) == src);
        }
        parse_fields(c, &d, &mut inner, Some(closer), floats)?;
        proof {
            crate::message::lemma_sorted_slots(inner.model().slots);
        }
        return Ok(Value::Message(inner));
    }
    let tok = c.require()?;
    let text = c.text(tok);
    proof {
        assert(text@ == src.text(pos));
    }
    match scalar_value(desc.pool_ref(), k, tok.kind, &text, floats) {
        Ok(v) => {
            proof {
                lemma_read_fits(desc.pool_view(), k, tok.kind, text@, floats.entries@);
            }
            Ok(v)
        },
        Err(f) => if f.located {
            Err(c.err(f.kind))
        } else {
            Err(ParseError { line: 0, col: 0, kind: f.kind })
        },
    }
}


impl DynamicMessage {
    /// Parse text-format `input` into a message of type `descriptor`.
    /// Numeric literals read into `float` and `double` fields take their
    /// bits from `floats`; a literal with no entry there is rejected as
    /// an invalid number.
    pub fn parse_text_format(
        descriptor: MessageDescriptor,
        input: &str,
        floats: &FloatLiterals,
    ) -> (r: Result<DynamicMessage, ParseError>)
        requires
            input@.len() < usize::MAX,
        ensures
            r matches Ok(m) ==> m.wf() && message_of(m.model(), &descriptor),
            r matches Ok(m) ==> text_parse(
                descriptor.pool_view(),
                descriptor.index(),
                input@,
                floats.entries@,
            ) == Ok::<MessageModel, Fault>(m.model()),
            r matches Err(e) ==> text_parse(
                descriptor.pool_view(),
                descriptor.index(),
                input@,
                floats.entries@,
            ) == Err::<MessageModel, Fault>(fault_of(e.kind)),
    {
        let cs = chars_of(input);
        let toks = tokenize(&cs);
        let mut c = Cursor { cs, toks, pos: 0, peeked: false, span: 0 };
        let mut msg = DynamicMessage::new(descriptor.clone_handle());
        proof {
            assert(slot_view(msg.model().slots) =~= Map::<u32, SlotModel>::empty());
        }
        parse_fields(&mut c, &descriptor, &mut msg, None, floats)?;
        proof {
            crate::message::lemma_sorted_slots(msg.model().slots);
        }
        Ok(msg)
    }
}

/// The texts of the integer and float tokens among `toks` of `cs`, in order.
pub open spec fn numeric_texts(cs: Seq<char>, toks: Seq<Token>) -> Seq<Seq<char>>
    decreases toks.len(),
{
    if toks.len() == 0 {
        seq![]
    } else {
        let rest = numeric_texts(cs, toks.drop_last());
        let t = toks.last();
        if t.kind == TokenKind::Int || t.kind == TokenKind::Float {
            rest.push(cs.subrange(t.start as int, t.end as int))
        } else {
            rest
        }
    }
}

/// The texts of the numeric tokens of `input`, in order: the literals a
/// [`FloatLiterals`] table for `input` needs entries for.
pub fn numeric_literals(input: &str) -> (r: Vec<String>)
    ensures
        r@.len() <= input@.len(),
        r@.len() == numeric_texts(input@, lexed(input@)).len(),
        forall|i: int|
            0 <= i < r@.len() ==> (#[trigger] r@[i])@ == numeric_texts(input@, lexed(input@))[i],
{
    let cs = chars_of(input);
    let toks = tokenize(&cs);
    let mut out: Vec<String> = Vec::new();
    let mut i: usize = 0;
    while i < toks.len()
        invariant
            i <= toks@.len(),
            toks@.len() <= cs@.len(),
            cs@ == input@,
            out@.len() <= i,
            forall|j: int|
                0 <= j < toks@.len() ==> (#[trigger] toks@[j]).start < toks@[j].end <= cs@.len(),
            toks@ == lexed(input@),
            out@.len() == numeric_texts(cs@, toks@.take(i as int)).len(),
            forall|j: int|
                0 <= j < out@.len() ==> (#[trigger] out@[j])@ == numeric_texts(
                    cs@,
                    toks@.take(i as int),
                )[j],
        decreases toks@.len() - i,
    {
        proof {
            assert(toks@.take(i + 1).drop_last() =~= toks@.take(i as int));
            assert(toks@.take(i + 1).last() == toks@[i as int]);
        }
        let t = toks[i];
        if t.kind == TokenKind::Int || t.kind == TokenKind::Float {
            out.push(string_of(&sub_chars(&cs, t.start, t.end)));
        }
        i = i + 1;
    }
    proof {
        assert(toks@.take(i as int) =~= toks@);
    }
    out
}

/// The decimal text of `v` is all digits, with no leading zero unless it
/// is the single digit `0`.
proof fn lemma_decimal_lead(v: nat)
    ensures
        forall|i: int|
            0 <= i < spec_decimal(v).len() ==> '0' <= #[trigger] spec_decimal(v)[i] <= '9',
        spec_decimal(v).len() > 1 ==> spec_decimal(v)[0] != '0',
    decreases v,
{
    let s = spec_decimal(v);
    assert(digit_char(v % 10) as int == 48 + v % 10);
    if v >= 10 {
        let w = v / 10;
        lemma_decimal_lead(w);
        let t = spec_decimal(w);
        assert(s == t.push(digit_char(v % 10)));
        assert forall|i: int| 0 <= i < s.len() implies '0' <= #[trigger] s[i] <= '9' by {
            if i < t.len() {
                assert(s[i] == t[i]);
            }
        }
        assert(s[0] == t[0]);
        if w < 10 {
            assert(digit_char(w) as int == 48 + w);
        } else {
            lemma_decimal_digits(w / 10);
            assert(t.len() == spec_decimal(w / 10).len() + 1);
        }
    }
}

/// An integer token read as a `uint64` or `fixed64` field gives its
/// numeric value, all 64 bits of it: the decimal text of any `v` up to
/// `u64::MAX` reads as `U64(v)`, and so does any unsigned literal
/// (decimal, octal or hex) whose value is `v`.
pub proof fn law_text_uint64_exact(
    pool: PoolInner,
    k: KindRef,
    v: u64,
    text: Seq<char>,
    floats: Seq<(String, u32, u64)>,
)
    requires
        k == KindRef::Uint64 || k == KindRef::Fixed64,
    ensures
        read_scalar(pool, k, TokenKind::Int, spec_decimal(v as nat), floats) == ScalarRead::Value(
            ValueModel::U64(v),
        ),
        spec_parse_unsigned(text) == Some(v as nat) ==> read_scalar(
            pool,
            k,
            TokenKind::Int,
            text,
            floats,
        ) == ScalarRead::Value(ValueModel::U64(v)),
{
    let d = spec_decimal(v as nat);
    lemma_decimal_digits(v as nat);
    lemma_decimal_lead(v as nat);
    assert('0' <= d[0] <= '9');
    if d.len() >= 2 {
        assert('0' <= d[1] <= '9');
    }
    assert(spec_parse_unsigned(d) == Some(v as nat));
}

} // verus!
