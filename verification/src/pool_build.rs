//! Two-pass pool builder: register every message and enum of a file set,
//! then resolve each field's type against the finished name table.

use std::sync::Arc;

use vstd::prelude::*;

use crate::descriptor::{
    DescriptorProto, EnumDescriptorProto, EnumValueDescriptorProto, FieldDescriptorProto, FileDescriptorProto,
    FileDescriptorSet, Label, MethodDescriptorProto, OneofDescriptorProto, ServiceDescriptorProto,
    Type,
};
use crate::error::DescriptorError;
use crate::pool::{
    Cardinality, Definition, EnumEntry, EnumValueEntry, FieldEntry, FileEntry, KindRef,
    MessageEntry, MethodEntry, OneofEntry, PoolInner, ServiceEntry, def_ok, kind_ok, lemma_table_get_push, lemma_table_get_some,
    table_find, table_get,
};
use crate::text::{chars_of, join, join_dot, spec_join, string_of};

verus! {

/// Largest legal protobuf field number.
pub const MAX_FIELD_NUMBER: u32 = 536_870_911;

/// A field number is usable iff it lies in `1..=2^29-1` and outside the
/// reserved `19000..=19999` range.
pub open spec fn field_number_valid(n: int) -> bool {
    1 <= n <= MAX_FIELD_NUMBER && !(19000 <= n <= 19999)
}

/// The characters of `"proto3"`.
pub open spec fn proto3_chars() -> Seq<char> {
    seq!['p', 'r', 'o', 't', 'o', '3']
}

/// True iff `s` is exactly `"proto3"`.
pub fn is_proto3(s: &str) -> (r: bool)
    ensures
        r == (s@ == proto3_chars()),
{
    let cs = chars_of(s);
    let r = cs.len() == 6 && cs[0] == 'p' && cs[1] == 'r' && cs[2] == 'o' && cs[3] == 't' && cs[4]
        == 'o' && cs[5] == '3';
    proof {
        if r {
            assert(cs@ =~= proto3_chars());
        }
    }
    r
}

// ── JSON names ──────────────────────────────────────────────────────────

/// ASCII upper-case of a character; other characters are unchanged.
pub open spec fn ascii_upper(c: char) -> char {
    if 'a' <= c && c <= 'z' {
        (((c as u32) - 32) as u8) as char
    } else {
        c
    }
}

/// ASCII lower-case of a character; other characters are unchanged.
pub open spec fn ascii_lower(c: char) -> char {
    if 'A' <= c && c <= 'Z' {
        (((c as u32) + 32) as u8) as char
    } else {
        c
    }
}

pub fn to_ascii_upper(c: char) -> (r: char)
    ensures
        r == ascii_upper(c),
{
    if 'a' <= c && c <= 'z' {
        (((c as u32) - 32) as u8) as char
    } else {
        c
    }
}

pub fn to_ascii_lower(c: char) -> (r: char)
    ensures
        r == ascii_lower(c),
{
    if 'A' <= c && c <= 'Z' {
        (((c as u32) + 32) as u8) as char
    } else {
        c
    }
}

/// lowerCamelCase of a snake_case name: every `_` is dropped and the
/// character after it is upper-cased (Unicode case mapping).
pub open spec fn spec_json_name(s: Seq<char>, upper_next: bool) -> Seq<char>
    decreases s.len(),
{
    if s.len() == 0 {
        seq![]
    } else if s[0] == '_' {
        spec_json_name(s.drop_first(), true)
    } else {
        (if upper_next {
            crate::case::upper_case(s[0])
        } else {
            seq![s[0]]
        }) + spec_json_name(s.drop_first(), false)
    }
}

/// Translate a snake_case proto field name to its default JSON name.
pub fn json_name_from_proto(name: &str) -> (r: String)
    ensures
        r@ == spec_json_name(name@, false),
{
    let cs = chars_of(name);
    let mut out = String::new();
    let mut upper_next = false;
    let mut i: usize = 0;
    assert(cs@.skip(0) =~= cs@);
    while i < cs.len()
        invariant
            i <= cs.len(),
            cs@ == name@,
            out@ + spec_json_name(cs@.skip(i as int), upper_next) == spec_json_name(name@, false),
        decreases cs.len() - i,
    {
        let ch = cs[i];
        assert(cs@.skip(i as int).drop_first() =~= cs@.skip(i + 1));
        if ch == '_' {
            upper_next = true;
        } else {
            let ghost before = out@;
            let piece = if upper_next {
                crate::case::to_uppercase_chars(ch)
            } else {
                let mut v: Vec<char> = Vec::new();
                v.push(ch);
                v
            };
            crate::case::push_chars(&mut out, &piece);
            assert(out@ + spec_json_name(cs@.skip(i + 1), false) =~= before + (piece@
                + spec_json_name(cs@.skip(i + 1), false)));
            upper_next = false;
        }
        i = i + 1;
    }
    assert(spec_json_name(cs@.skip(i as int), upper_next) =~= Seq::<char>::empty());
    assert(out@ + Seq::<char>::empty() =~= out@);
    out
}

// ── labels, packing, presence ───────────────────────────────────────────

/// Cardinality of a field label (an absent label means optional).
pub open spec fn spec_cardinality(label: Option<Label>) -> Cardinality {
    match label {
        Some(Label::LabelRequired) => Cardinality::Required,
        Some(Label::LabelRepeated) => Cardinality::Repeated,
        _ => Cardinality::Optional,
    }
}

/// Cardinality of a field label.
pub fn cardinality_of(label: Option<Label>) -> (r: Cardinality)
    ensures
        r == spec_cardinality(label),
{
    match label {
        Some(Label::LabelRequired) => Cardinality::Required,
        Some(Label::LabelRepeated) => Cardinality::Repeated,
        _ => Cardinality::Optional,
    }
}

/// Scalar numeric kinds (and enums) may use packed encoding.
pub open spec fn spec_is_packable(k: KindRef) -> bool {
    !(k is String || k is Bytes || k is Message)
}

/// True iff `kind` may use packed encoding.
pub fn is_packable_kind(kind: KindRef) -> (r: bool)
    ensures
        r == spec_is_packable(kind),
{
    match kind {
        KindRef::String | KindRef::Bytes | KindRef::Message(_) => false,
        _ => true,
    }
}

/// Presence tracking: never for repeated fields; always for oneof members
/// and message fields; in proto3 only for `optional` fields; otherwise
/// always.
pub open spec fn spec_supports_presence(
    proto3: bool,
    card: Cardinality,
    kind: KindRef,
    in_oneof: bool,
    proto3_optional: Option<bool>,
) -> bool {
    if card == Cardinality::Repeated {
        false
    } else if in_oneof {
        true
    } else if kind is Message {
        true
    } else if proto3 {
        proto3_optional == Some(true)
    } else {
        true
    }
}

/// Packed encoding: only repeated packable fields; an explicit `packed`
/// option decides, else proto3 packs and proto2 does not.
pub open spec fn spec_is_packed(
    proto3: bool,
    card: Cardinality,
    kind: KindRef,
    packed: Option<bool>,
) -> bool {
    if card != Cardinality::Repeated || !spec_is_packable(kind) {
        false
    } else {
        match packed {
            Some(b) => b,
            None => proto3,
        }
    }
}

/// The `packed` option of a field descriptor, if set.
pub open spec fn packed_option_of(p: &FieldDescriptorProto) -> Option<bool> {
    match p.options {
        Some(o) => o.packed,
        None => None,
    }
}

// ── type-name resolution ────────────────────────────────────────────────

/// Index of the last `.` in `s`, or -1.
pub open spec fn last_dot(s: Seq<char>) -> int
    decreases s.len(),
{
    if s.len() == 0 {
        -1
    } else if s.last() == '.' {
        s.len() - 1
    } else {
        last_dot(s.drop_last())
    }
}

pub proof fn lemma_last_dot(s: Seq<char>)
    ensures
        -1 <= last_dot(s) < s.len(),
        last_dot(s) >= 0 ==> s[last_dot(s)] == '.',
        forall|i: int| last_dot(s) < i < s.len() ==> s[i] != '.',
    decreases s.len(),
{
    if s.len() > 0 && s.last() != '.' {
        lemma_last_dot(s.drop_last());
        assert forall|i: int| last_dot(s) < i < s.len() implies s[i] != '.' by {
            if i < s.len() - 1 {
                assert(s.drop_last()[i] == s[i]);
            }
        }
    }
}

/// The enclosing scope of a dotted name: everything before the last `.`.
pub open spec fn parent_scope(s: Seq<char>) -> Seq<char> {
    if last_dot(s) < 0 {
        seq![]
    } else {
        s.take(last_dot(s))
    }
}

/// Relative lookup following the protobuf scoping rule: try
/// `scope.name`, then the enclosing scopes outward, then `name` alone.
pub open spec fn spec_resolve_relative(
    names: Seq<(String, Definition)>,
    scope: Seq<char>,
    name: Seq<char>,
) -> Option<Definition>
    decreases scope.len(),
{
    let found = table_get(names, spec_join(scope, name));
    if found is Some {
        found
    } else if scope.len() == 0 {
        None
    } else {
        proof {
            lemma_last_dot(scope);
        }
        spec_resolve_relative(names, parent_scope(scope), name)
    }
}

/// A leading `.` makes a type reference absolute; otherwise it is
/// resolved relative to `scope`.
pub open spec fn spec_resolve_type_name(
    names: Seq<(String, Definition)>,
    scope: Seq<char>,
    name: Seq<char>,
) -> Option<Definition> {
    if name.len() > 0 && name[0] == '.' {
        table_get(names, name.drop_first())
    } else {
        spec_resolve_relative(names, scope, name)
    }
}

fn chars_string(cs: &Vec<char>, len: usize) -> (r: String)
    requires
        len <= cs@.len(),
    ensures
        r@ == cs@.take(len as int),
{
    let mut out = String::new();
    let mut i: usize = 0;
    while i < len
        invariant
            i <= len <= cs@.len(),
            out@ == cs@.take(i as int),
        decreases len - i,
    {
        out.push(cs[i]);
        i = i + 1;
        assert(out@ =~= cs@.take(i as int));
    }
    out
}

fn find_last_dot(cs: &Vec<char>, len: usize) -> (r: Option<usize>)
    requires
        len <= cs@.len(),
    ensures
        r matches Some(i) ==> last_dot(cs@.take(len as int)) == i,
        r is None ==> last_dot(cs@.take(len as int)) == -1,
{
    let mut k = len;
    while k > 0
        invariant
            k <= len <= cs@.len(),
            last_dot(cs@.take(len as int)) == last_dot(cs@.take(k as int)),
        decreases k,
    {
        let ghost t = cs@.take(k as int);
        assert(t.drop_last() =~= cs@.take(k - 1));
        if cs[k - 1] == '.' {
            assert(t.last() == '.');
            return Some(k - 1);
        }
        k = k - 1;
    }
    assert(cs@.take(0) =~= Seq::<char>::empty());
    None
}

/// Resolve a type reference from within `scope`.
pub fn resolve_type_name(pool: &PoolInner, scope: &str, name: &str) -> (r: Option<Definition>)
    ensures
        r == spec_resolve_type_name(pool.names@, scope@, name@),
{
    let ncs = chars_of(name);
    if ncs.len() > 0 && ncs[0] == '.' {
        let key = crate::text::strip_leading_dot(name);
        return table_find(&pool.names, &key);
    }
    let scs = chars_of(scope);
    let mut len = scs.len();
    assert(scs@.take(len as int) =~= scope@);
    loop
        invariant
            len <= scs@.len(),
            scs@ == scope@,
            !(name@.len() > 0 && name@[0] == '.'),
            spec_resolve_relative(pool.names@, scope@, name@) == spec_resolve_relative(
                pool.names@,
                scs@.take(len as int),
                name@,
            ),
        decreases len,
    {
        let scope_now = chars_string(&scs, len);
        let candidate = join(scope_now.as_str(), name);
        let found = table_find(&pool.names, &candidate);
        assert(scope_now@ == scs@.take(len as int));
        if found.is_some() {
            assert(spec_resolve_relative(pool.names@, scs@.take(len as int), name@) == found);
            return found;
        }
        if len == 0 {
            return None;
        }
        let ghost cur = scs@.take(len as int);
        proof {
            lemma_last_dot(cur);
        }
        match find_last_dot(&scs, len) {
            Some(d) => {
                assert(parent_scope(cur) =~= scs@.take(d as int));
                len = d;
            },
            None => {
                assert(parent_scope(cur) =~= scs@.take(0));
                len = 0;
            },
        }
    }
}

// ── field kinds ─────────────────────────────────────────────────────────

/// The kind a scalar `Type` denotes; `None` for message, group and enum.
pub open spec fn spec_scalar_kind(t: Type) -> Option<KindRef> {
    match t {
        Type::TypeDouble => Some(KindRef::Double),
        Type::TypeFloat => Some(KindRef::Float),
        Type::TypeInt64 => Some(KindRef::Int64),
        Type::TypeUint64 => Some(KindRef::Uint64),
        Type::TypeInt32 => Some(KindRef::Int32),
        Type::TypeFixed64 => Some(KindRef::Fixed64),
        Type::TypeFixed32 => Some(KindRef::Fixed32),
        Type::TypeBool => Some(KindRef::Bool),
        Type::TypeString => Some(KindRef::String),
        Type::TypeBytes => Some(KindRef::Bytes),
        Type::TypeUint32 => Some(KindRef::Uint32),
        Type::TypeSfixed32 => Some(KindRef::Sfixed32),
        Type::TypeSfixed64 => Some(KindRef::Sfixed64),
        Type::TypeSint32 => Some(KindRef::Sint32),
        Type::TypeSint64 => Some(KindRef::Sint64),
        _ => None,
    }
}

fn scalar_kind(t: Type) -> (r: Option<KindRef>)
    ensures
        r == spec_scalar_kind(t),
{
    match t {
        Type::TypeDouble => Some(KindRef::Double),
        Type::TypeFloat => Some(KindRef::Float),
        Type::TypeInt64 => Some(KindRef::Int64),
        Type::TypeUint64 => Some(KindRef::Uint64),
        Type::TypeInt32 => Some(KindRef::Int32),
        Type::TypeFixed64 => Some(KindRef::Fixed64),
        Type::TypeFixed32 => Some(KindRef::Fixed32),
        Type::TypeBool => Some(KindRef::Bool),
        Type::TypeString => Some(KindRef::String),
        Type::TypeBytes => Some(KindRef::Bytes),
        Type::TypeUint32 => Some(KindRef::Uint32),
        Type::TypeSfixed32 => Some(KindRef::Sfixed32),
        Type::TypeSfixed64 => Some(KindRef::Sfixed64),
        Type::TypeSint32 => Some(KindRef::Sint32),
        Type::TypeSint64 => Some(KindRef::Sint64),
        _ => None,
    }
}

/// Which kind of definition a type reference must resolve to.
#[derive(Clone, Copy, PartialEq, Eq, Structural)]
pub enum NamedKind {
    Message,
    Enum,
    Either,
}

/// The kind a resolved reference yields, if it is the expected sort.
pub open spec fn spec_named_kind(expect: NamedKind, d: Definition) -> Option<KindRef> {
    match d {
        Definition::Message(i) => if expect != NamedKind::Enum {
            Some(KindRef::Message(i))
        } else {
            None
        },
        Definition::Enum(i) => if expect != NamedKind::Message {
            Some(KindRef::Enum(i))
        } else {
            None
        },
    }
}

/// The resolved kind of a field declared inside `scope`: scalars map
/// directly; message, group and enum types (or a bare type reference)
/// resolve through the name table and must be of the declared sort.
pub open spec fn spec_resolve_kind(
    names: Seq<(String, Definition)>,
    scope: Seq<char>,
    p: &FieldDescriptorProto,
) -> Option<KindRef> {
    let expect = match p.field_type {
        Some(Type::TypeEnum) => Some(NamedKind::Enum),
        Some(Type::TypeMessage) | Some(Type::TypeGroup) => Some(NamedKind::Message),
        Some(_) => None,
        None => Some(NamedKind::Either),
    };
    match p.field_type {
        Some(t) if spec_scalar_kind(t) is Some => spec_scalar_kind(t),
        _ => match (expect, p.type_path) {
            (Some(e), Some(tn)) => match spec_resolve_type_name(names, scope, tn@) {
                Some(d) => spec_named_kind(e, d),
                None => None,
            },
            _ => None,
        },
    }
}

/// The field type a reference of kind `expect` names, as reported.
pub open spec fn named_kind_label(expect: NamedKind) -> Seq<char> {
    match expect {
        NamedKind::Message => "TYPE_MESSAGE"@,
        NamedKind::Enum => "TYPE_ENUM"@,
        NamedKind::Either => "TYPE_MESSAGE_OR_ENUM"@,
    }
}

fn named_label(expect: NamedKind) -> (r: String)
    ensures
        r@ == named_kind_label(expect),
{
    match expect {
        NamedKind::Message => "TYPE_MESSAGE".to_owned(),
        NamedKind::Enum => "TYPE_ENUM".to_owned(),
        NamedKind::Either => "TYPE_MESSAGE_OR_ENUM".to_owned(),
    }
}

fn resolve_named_kind(
    pool: &PoolInner,
    scope: &String,
    field_full_name: &String,
    p: &FieldDescriptorProto,
    expect: NamedKind,
) -> (r: Result<KindRef, DescriptorError>)
    ensures
        r is Ok <==> (p.type_path is Some && spec_resolve_type_name(
            pool.names@,
            scope@,
            p.type_path->0@,
        ) is Some && spec_named_kind(
            expect,
            spec_resolve_type_name(pool.names@, scope@, p.type_path->0@)->0,
        ) is Some),
        r is Ok ==> Some(r->Ok_0) == spec_named_kind(
            expect,
            spec_resolve_type_name(pool.names@, scope@, p.type_path->0@)->0,
        ),
        p.type_path is None ==> (r matches Err(DescriptorError::MissingTypeName { .. })),
        (p.type_path is Some && spec_resolve_type_name(pool.names@, scope@, p.type_path->0@)
            is None) ==> (r matches Err(DescriptorError::UnresolvedType { .. })),
{
    let raw = match &p.type_path {
        Some(t) => t,
        None => {
            return Err(
                DescriptorError::MissingTypeName {
                    field: field_full_name.clone(),
                    kind: named_label(expect),
                },
            );
        },
    };
    let resolved = resolve_type_name(pool, scope.as_str(), raw.as_str());
    match resolved {
        None => Err(
            DescriptorError::UnresolvedType {
                field: field_full_name.clone(),
                referenced: raw.clone(),
            },
        ),
        Some(Definition::Message(i)) => {
            if expect != NamedKind::Enum {
                Ok(KindRef::Message(i))
            } else {
                let mut m = "field `".to_owned();
                m.push_str(field_full_name.as_str());
                m.push_str("` expected an enum but `");
                m.push_str(raw.as_str());
                m.push_str("` resolved to a different kind");
                Err(DescriptorError::Validation(m))
            }
        },
        Some(Definition::Enum(i)) => {
            if expect != NamedKind::Message {
                Ok(KindRef::Enum(i))
            } else {
                let mut m = "field `".to_owned();
                m.push_str(field_full_name.as_str());
                m.push_str("` expected a message but `");
                m.push_str(raw.as_str());
                m.push_str("` resolved to a different kind");
                Err(DescriptorError::Validation(m))
            }
        },
    }
}

/// Resolve the kind of the field `p` declared in message `scope`.
pub fn resolve_kind(
    pool: &PoolInner,
    scope: &String,
    field_full_name: &String,
    p: &FieldDescriptorProto,
) -> (r: Result<KindRef, DescriptorError>)
    ensures
        r is Ok <==> spec_resolve_kind(pool.names@, scope@, p) is Some,
        r is Ok ==> spec_resolve_kind(pool.names@, scope@, p) == Some(r->Ok_0),
        (p.field_type is None && p.type_path is None) ==> (r matches Err(
            DescriptorError::MissingFieldType { .. },
        )),
{
    match p.field_type {
        Some(t) => {
            match scalar_kind(t) {
                Some(k) => Ok(k),
                None => {
                    let expect = if t == Type::TypeEnum {
                        NamedKind::Enum
                    } else {
                        NamedKind::Message
                    };
                    resolve_named_kind(pool, scope, field_full_name, p, expect)
                },
            }
        },
        None => {
            if p.type_path.is_some() {
                resolve_named_kind(pool, scope, field_full_name, p, NamedKind::Either)
            } else {
                Err(DescriptorError::MissingFieldType { field: field_full_name.clone() })
            }
        },
    }
}

// ── field entries ───────────────────────────────────────────────────────

/// The JSON name a field ends up with: an explicit non-empty `json_name`,
/// else the lowerCamelCase of its proto name.
pub open spec fn spec_field_json_name(p: &FieldDescriptorProto, name: Seq<char>) -> Seq<char> {
    match p.json_name {
        Some(j) if j@.len() > 0 => j@,
        _ => spec_json_name(name, false),
    }
}

/// Enum values available to an enum-typed default.
pub open spec fn default_enum_values(pool: &PoolInner, kind: KindRef) -> Option<
    Seq<EnumValueEntry>,
> {
    match kind {
        KindRef::Enum(i) => if i < pool.enums@.len() {
            Some(pool.enums@[i as int].values@)
        } else {
            None
        },
        _ => None,
    }
}

/// The parsed default a field carries: none when absent or repeated,
/// otherwise the literal parsed against the kind (which must succeed).
pub open spec fn spec_field_default(
    pool: &PoolInner,
    p: &FieldDescriptorProto,
    card: Cardinality,
    kind: KindRef,
) -> Option<Option<crate::defaults::DefaultModel>> {
    match p.default_value {
        None => Some(None),
        Some(raw) => if card == Cardinality::Repeated {
            Some(None)
        } else {
            match crate::defaults::spec_default(
                raw@,
                kind,
                default_enum_values(pool, kind),
            ) {
                Some(d) => Some(Some(d)),
                None => None,
            }
        },
    }
}

/// Conditions under which a field descriptor is accepted.
pub open spec fn spec_field_ok(
    pool: &PoolInner,
    scope: Seq<char>,
    proto3: bool,
    p: &FieldDescriptorProto,
) -> bool {
    &&& p.name is Some
    &&& p.number is Some
    &&& field_number_valid(p.number->0 as int)
    &&& !(proto3 && spec_cardinality(p.label) == Cardinality::Required)
    &&& spec_resolve_kind(pool.names@, scope, p) is Some
    &&& spec_field_default(
        pool,
        p,
        spec_cardinality(p.label),
        spec_resolve_kind(pool.names@, scope, p)->0,
    ) is Some
}

/// An accepted field descriptor produces exactly this entry.
pub open spec fn spec_field_entry_matches(
    e: &FieldEntry,
    pool: &PoolInner,
    scope: Seq<char>,
    proto3: bool,
    p: &FieldDescriptorProto,
    pos: u32,
) -> bool {
    let name = p.name->0@;
    let card = spec_cardinality(p.label);
    let kind = spec_resolve_kind(pool.names@, scope, p)->0;
    &&& e.name@ == name
    &&& e.full_name@ == scope + seq!['.'] + name
    &&& e.json_name@ == spec_field_json_name(p, name)
    &&& e.number == p.number->0
    &&& e.kind == kind
    &&& e.cardinality == card
    &&& e.supports_presence == spec_supports_presence(
        proto3,
        card,
        kind,
        p.oneof_index is Some,
        p.proto3_optional,
    )
    &&& e.is_packed == spec_is_packed(proto3, card, kind, packed_option_of(p))
    &&& e.oneof_index == (match p.oneof_index {
        Some(i) => Some(crate::wire::spec_u32_of_int(i as int) as u32),
        None => None,
    })
    &&& e.proto_field_index == pos
    &&& (match e.parsed_default {
        Some(d) => Some(Some(d.model())),
        None => Some(None),
    }) == spec_field_default(pool, p, card, kind)
}

/// Validate one field descriptor of message `scope` and build its entry.
pub fn build_field_entry(
    pool: &PoolInner,
    scope: &String,
    proto3: bool,
    p: &FieldDescriptorProto,
    pos: u32,
) -> (r: Result<FieldEntry, DescriptorError>)
    ensures
        r is Ok <==> spec_field_ok(pool, scope@, proto3, p),
        r is Ok ==> spec_field_entry_matches(&r->Ok_0, pool, scope@, proto3, p, pos),
        p.name is None ==> (r matches Err(DescriptorError::MissingName { .. })),
        (p.name is Some && p.number is Some && !field_number_valid(p.number->0 as int)) ==> (
        r matches Err(DescriptorError::InvalidFieldNumber { message, number, max })
            && message@ == scope@ && number == p.number->0 && max == MAX_FIELD_NUMBER),
        (p.name is Some && p.number is Some && field_number_valid(p.number->0 as int) && proto3
            && spec_cardinality(p.label) == Cardinality::Required) ==> (r matches Err(
            DescriptorError::Proto3RequiredField { field },
        ) && field@ == scope@ + seq!['.'] + p.name->0@),
{
    let name = match &p.name {
        Some(n) => n.clone(),
        None => {
            return Err(DescriptorError::MissingName { location: scope.clone() });
        },
    };
    let full_name = join_dot(scope.as_str(), name.as_str());
    let number = match p.number {
        Some(n) => n,
        None => {
            let mut m = "field `".to_owned();
            m.push_str(full_name.as_str());
            m.push_str("` is missing a number");
            return Err(DescriptorError::Validation(m));
        },
    };
    if number <= 0 || number as u32 > MAX_FIELD_NUMBER || (19000 <= number && number <= 19999) {
        return Err(
            DescriptorError::InvalidFieldNumber {
                message: scope.clone(),
                number,
                max: MAX_FIELD_NUMBER,
            },
        );
    }
    let json_name = match &p.json_name {
        Some(j) => {
            if j.as_str().is_empty() {
                json_name_from_proto(name.as_str())
            } else {
                j.clone()
            }
        },
        None => json_name_from_proto(name.as_str()),
    };
    let cardinality = cardinality_of(p.label);
    if cardinality == Cardinality::Required && proto3 {
        return Err(DescriptorError::Proto3RequiredField { field: full_name });
    }
    let kind = match resolve_kind(pool, scope, &full_name, p) {
        Ok(k) => k,
        Err(e) => {
            return Err(e);
        },
    };
    let oneof_index = match p.oneof_index {
        Some(i) => Some(crate::wire::u32_of_i32(i)),
        None => None,
    };
    let supports_presence = if cardinality == Cardinality::Repeated {
        false
    } else if p.oneof_index.is_some() {
        true
    } else if matches!(kind, KindRef::Message(_)) {
        true
    } else if proto3 {
        p.proto3_optional == Some(true)
    } else {
        true
    };
    let packed_option = match p.options {
        Some(o) => o.packed,
        None => None,
    };
    let is_packed = if cardinality != Cardinality::Repeated || !is_packable_kind(kind) {
        false
    } else {
        match packed_option {
            Some(b) => b,
            None => proto3,
        }
    };
    let parsed_default = match &p.default_value {
        None => None,
        Some(raw) => {
            if cardinality == Cardinality::Repeated {
                None
            } else {
                let enum_values = match kind {
                    KindRef::Enum(i) => {
                        if (i as usize) < pool.enums.len() {
                            Some(&pool.enums[i as usize].values)
                        } else {
                            None
                        }
                    },
                    _ => None,
                };
                match crate::defaults::parse_default_value(raw.as_str(), kind, enum_values) {
                    Ok(d) => Some(d),
                    Err(message) => {
                        return Err(
                            DescriptorError::InvalidDefaultValue {
                                field: full_name,
                                value: raw.clone(),
                                message,
                            },
                        );
                    },
                }
            }
        },
    };
    Ok(
        FieldEntry {
            name,
            full_name,
            json_name,
            number: number as u32,
            kind,
            cardinality,
            supports_presence,
            is_packed,
            oneof_index,
            proto_field_index: pos,
            parsed_default,
        },
    )
}


// ── registration (pass 1) ───────────────────────────────────────────────

/// `b` extends `a` by registration only: files, services and their tables
/// are untouched; messages, enums and names only gain entries at the end.
pub open spec fn extends(a: &PoolInner, b: &PoolInner) -> bool {
    &&& b.files@ == a.files@
    &&& b.file_names@ == a.file_names@
    &&& b.services@ == a.services@
    &&& b.service_names@ == a.service_names@
    &&& a.messages@.len() <= b.messages@.len()
    &&& b.messages@.take(a.messages@.len() as int) == a.messages@
    &&& a.enums@.len() <= b.enums@.len()
    &&& b.enums@.take(a.enums@.len() as int) == a.enums@
    &&& a.names@.len() <= b.names@.len()
    &&& b.names@.take(a.names@.len() as int) == a.names@
}

/// A name bound in `a` keeps its binding in any table that extends `a`.
pub proof fn lemma_table_prefix<V>(a: Seq<(String, V)>, b: Seq<(String, V)>, key: Seq<char>)
    requires
        a.len() <= b.len(),
        b.take(a.len() as int) == a,
        table_get(a, key) is Some,
    ensures
        table_get(b, key) == table_get(a, key),
    decreases a.len(),
{
    if a[0].0@ != key {
        assert(b[0] == a[0]);
        assert(b.drop_first().take(a.drop_first().len() as int) =~= a.drop_first());
        lemma_table_prefix(a.drop_first(), b.drop_first(), key);
    } else {
        assert(b[0] == a[0]);
    }
}

proof fn lemma_extends_refl(a: &PoolInner)
    ensures
        extends(a, a),
{
    assert(a.messages@.take(a.messages@.len() as int) =~= a.messages@);
    assert(a.enums@.take(a.enums@.len() as int) =~= a.enums@);
    assert(a.names@.take(a.names@.len() as int) =~= a.names@);
}

proof fn lemma_extends_trans(a: &PoolInner, b: &PoolInner, c: &PoolInner)
    requires
        extends(a, b),
        extends(b, c),
    ensures
        extends(a, c),
{
    assert(c.messages@.take(a.messages@.len() as int) =~= b.messages@.take(
        a.messages@.len() as int,
    ));
    assert(c.enums@.take(a.enums@.len() as int) =~= b.enums@.take(a.enums@.len() as int));
    assert(c.names@.take(a.names@.len() as int) =~= b.names@.take(a.names@.len() as int));
}

fn missing_name(location: &str) -> (r: DescriptorError)
    ensures
        r matches DescriptorError::MissingName { location: l } && l@ == location@,
{
    DescriptorError::MissingName { location: location.to_owned() }
}

/// The names bound in `pool`'s name table.
pub open spec fn names_in_use(pool: &PoolInner) -> Set<Seq<char>> {
    Set::new(|x: Seq<char>| table_get(pool.names@, x) is Some)
}

/// The keys bound in a table after pushing `(k, v)` onto it.
proof fn lemma_names_push<V>(t: Seq<(String, V)>, k: String, v: V)
    ensures
        Set::new(|x: Seq<char>| table_get(t.push((k, v)), x) is Some) == Set::new(
            |x: Seq<char>| table_get(t, x) is Some,
        ).insert(k@),
{
    assert forall|x: Seq<char>|
        (#[trigger] table_get(t.push((k, v)), x) is Some) == (table_get(t, x) is Some || x == k@) by {
        lemma_table_get_push(t, k, v, x);
    }
    assert(Set::new(|x: Seq<char>| table_get(t.push((k, v)), x) is Some) =~= Set::new(
        |x: Seq<char>| table_get(t, x) is Some,
    ).insert(k@));
}

/// Enum descriptor `proto` can be registered under `full` with `taken`
/// names in use and `ne` enums so far: the name is free, the counts fit,
/// and its values are named, numbered and distinctly named.
pub open spec fn enum_fits(proto: EnumDescriptorProto, full: Seq<char>, taken: Set<Seq<char>>, ne: nat) -> bool {
    &&& !taken.contains(full)
    &&& ne < 0xffff_ffff
    &&& proto.value@.len() <= 0xffff_ffff
    &&& forall|k: int|
        0 <= k < proto.value@.len() ==> (#[trigger] proto.value@[k]).name is Some
            && proto.value@[k].number is Some
    &&& forall|a: int, b: int|
        0 <= a < b < proto.value@.len() ==> (#[trigger] proto.value@[a]).name->0@
            != (#[trigger] proto.value@[b]).name->0@
}

/// Why registering a declaration fails: a missing name (at the given
/// location), a full name taken twice, or a failed check with its message.
pub enum RegFault {
    MissingName(Seq<char>),
    Duplicate(Seq<char>),
    Validation(Seq<char>),
}

/// Error `e` reports fault `f`.
pub open spec fn fault_is(e: DescriptorError, f: RegFault) -> bool {
    match f {
        RegFault::MissingName(l) => e matches DescriptorError::MissingName { location: x } && x@ == l,
        RegFault::Duplicate(n) => e matches DescriptorError::DuplicateType(x) && x@ == n,
        RegFault::Validation(msg) => e matches DescriptorError::Validation(x) && x@ == msg,
    }
}

/// Error `e` reports the fault `f` names; no error reports success.
pub open spec fn reports(e: DescriptorError, f: Option<RegFault>) -> bool {
    match f {
        Some(x) => fault_is(e, x),
        None => false,
    }
}

/// The first value of `vs` from the `i`-th on that fails
/// [`enum_value_ok`], or -1.
pub open spec fn first_bad_value(vs: Seq<EnumValueDescriptorProto>, i: int) -> int
    decreases vs.len() - i,
{
    if i < 0 || i >= vs.len() {
        -1
    } else if !enum_value_ok(vs, i) {
        i
    } else {
        first_bad_value(vs, i + 1)
    }
}

proof fn lemma_first_bad(vs: Seq<EnumValueDescriptorProto>, j: int, i: int)
    requires
        0 <= j <= i < vs.len(),
        forall|k: int| j <= k < i ==> enum_value_ok(vs, k),
        !enum_value_ok(vs, i),
    ensures
        first_bad_value(vs, j) == i,
    decreases i - j,
{
    if j < i {
        lemma_first_bad(vs, j + 1, i);
    }
}

/// The fault of value `j` of enum `full` (see [`enum_value_error`]).
pub open spec fn value_fault(vs: Seq<EnumValueDescriptorProto>, j: int, full: Seq<char>) -> RegFault {
    if vs[j].name is None {
        RegFault::MissingName(full)
    } else if vs[j].number is None {
        RegFault::Validation(
            "enum `"@ + full + "` value `"@ + vs[j].name->0@ + "` is missing a number"@,
        )
    } else {
        RegFault::Duplicate(full + seq!['.'] + vs[j].name->0@)
    }
}

/// Why registering enum `proto` in `scope` fails, with `taken` names in
/// use and `ne` enums so far; `None` when it succeeds.
pub open spec fn enum_fault(proto: EnumDescriptorProto, scope: Seq<char>, taken: Set<Seq<char>>, ne: nat) -> Option<
    RegFault,
> {
    match proto.name {
        None => Some(RegFault::MissingName(scope)),
        Some(n) => {
            let full = spec_join(scope, n@);
            if taken.contains(full) {
                Some(RegFault::Duplicate(full))
            } else if ne >= 0xffff_ffff {
                Some(RegFault::Validation("too many enums in pool"@))
            } else if proto.value@.len() > 0xffff_ffff {
                Some(RegFault::Validation("too many enum values"@))
            } else if first_bad_value(proto.value@, 0) >= 0 {
                Some(value_fault(proto.value@, first_bad_value(proto.value@, 0), full))
            } else {
                None
            }
        },
    }
}

proof fn lemma_first_bad_none(vs: Seq<EnumValueDescriptorProto>, j: int)
    requires
        0 <= j,
        forall|k: int| j <= k < vs.len() ==> enum_value_ok(vs, k),
    ensures
        first_bad_value(vs, j) == -1,
    decreases vs.len() - j,
{
    if j < vs.len() {
        lemma_first_bad_none(vs, j + 1);
    }
}

/// Why registering the enums `es` from the `i`-th on fails (see
/// [`enum_fault`]); `None` when they all register.
pub open spec fn enums_fault(
    es: Seq<EnumDescriptorProto>,
    scope: Seq<char>,
    i: int,
    taken: Set<Seq<char>>,
    nm: nat,
    ne: nat,
) -> Option<RegFault>
    decreases es.len() - i,
{
    if i < 0 || i >= es.len() {
        None
    } else {
        match enum_fault(es[i], scope, taken, ne) {
            Some(f) => Some(f),
            None => enums_fault(es, scope, i + 1, taken.insert(spec_join(scope, es[i].name->0@)), nm, ne + 1),
        }
    }
}

/// Why registering message `proto` in `scope` fails, in the order the
/// checks are made: its name, its full name, the counts, then its nested
/// messages and its enums in turn (see [`msg_reg`]); `None` when it
/// succeeds.
pub open spec fn msg_fault(
    proto: DescriptorProto,
    scope: Seq<char>,
    taken: Set<Seq<char>>,
    nm: nat,
    ne: nat,
) -> Option<RegFault>
    decreases proto, 1nat, 0int,
{
    match proto.name {
        None => Some(RegFault::MissingName(scope)),
        Some(n) => {
            let full = spec_join(scope, n@);
            if taken.contains(full) {
                Some(RegFault::Duplicate(full))
            } else if nm >= 0xffff_ffff {
                Some(RegFault::Validation("too many messages in pool"@))
            } else if proto.nested_type@.len() > 0xffff_ffff || proto.enum_type@.len() > 0xffff_ffff {
                Some(RegFault::Validation("too many nested types"@))
            } else {
                nested_then_enums_fault(proto, full, 0, taken.insert(full), nm + 1, ne)
            }
        },
    }
}

/// Why registering the nested messages of `proto` from the `i`-th on,
/// and then its enums, fails under `scope` (see [`msg_fault`]).
pub open spec fn nested_then_enums_fault(
    proto: DescriptorProto,
    scope: Seq<char>,
    i: int,
    taken: Set<Seq<char>>,
    nm: nat,
    ne: nat,
) -> Option<RegFault>
    decreases proto, 0nat, proto.nested_type@.len() - i,
{
    if i < 0 || i >= proto.nested_type@.len() {
        enums_fault(proto.enum_type@, scope, 0, taken, nm, ne)
    } else {
        proof {
            assert(decreases_to!(proto => proto.nested_type));
            assert(decreases_to!(proto.nested_type => proto.nested_type@));
            assert(decreases_to!(proto.nested_type@ => proto.nested_type@[i]));
        }
        match msg_fault(proto.nested_type@[i], scope, taken, nm, ne) {
            Some(f) => Some(f),
            None => match msg_reg(proto.nested_type@[i], scope, taken, nm, ne) {
                Some((t, m, e)) => nested_then_enums_fault(proto, scope, i + 1, t, m, e),
                None => None,
            },
        }
    }
}

/// Registering the enums `es` from the `i`-th on under `scope`, with
/// `taken` names in use and `nm` messages and `ne` enums so far: the names
/// in use and the counts afterwards, or `None` where it fails.
pub open spec fn enums_reg(
    es: Seq<EnumDescriptorProto>,
    scope: Seq<char>,
    i: int,
    taken: Set<Seq<char>>,
    nm: nat,
    ne: nat,
) -> Option<(Set<Seq<char>>, nat, nat)>
    decreases es.len() - i,
{
    if i < 0 || i >= es.len() {
        Some((taken, nm, ne))
    } else {
        match es[i].name {
            None => None,
            Some(n) => if enum_fits(es[i], spec_join(scope, n@), taken, ne) {
                enums_reg(es, scope, i + 1, taken.insert(spec_join(scope, n@)), nm, ne + 1)
            } else {
                None
            },
        }
    }
}

/// Registering message `proto` in `scope` (its nested messages, then its
/// nested enums, depth first), with `taken` names in use and `nm`
/// messages and `ne` enums so far: the names in use and the counts
/// afterwards, or `None` where it fails.
pub open spec fn msg_reg(
    proto: DescriptorProto,
    scope: Seq<char>,
    taken: Set<Seq<char>>,
    nm: nat,
    ne: nat,
) -> Option<(Set<Seq<char>>, nat, nat)>
    decreases proto, 1nat, 0int,
{
    match proto.name {
        None => None,
        Some(n) => {
            let full = spec_join(scope, n@);
            if taken.contains(full) || nm >= 0xffff_ffff || proto.nested_type@.len() > 0xffff_ffff
                || proto.enum_type@.len() > 0xffff_ffff {
                None
            } else {
                match nested_reg(proto, full, 0, taken.insert(full), nm + 1, ne) {
                    None => None,
                    Some((t, m, e)) => enums_reg(proto.enum_type@, full, 0, t, m, e),
                }
            }
        },
    }
}

/// Registering the nested messages of `proto` from the `i`-th on under
/// `scope` (see [`msg_reg`]).
pub open spec fn nested_reg(
    proto: DescriptorProto,
    scope: Seq<char>,
    i: int,
    taken: Set<Seq<char>>,
    nm: nat,
    ne: nat,
) -> Option<(Set<Seq<char>>, nat, nat)>
    decreases proto, 0nat, proto.nested_type@.len() - i,
{
    if i < 0 || i >= proto.nested_type@.len() {
        Some((taken, nm, ne))
    } else {
        proof {
            assert(decreases_to!(proto => proto.nested_type));
            assert(decreases_to!(proto.nested_type => proto.nested_type@));
            assert(decreases_to!(proto.nested_type@ => proto.nested_type@[i]));
        }
        match msg_reg(proto.nested_type@[i], scope, taken, nm, ne) {
            None => None,
            Some((t, m, e)) => nested_reg(proto, scope, i + 1, t, m, e),
        }
    }
}

/// Enum descriptor `proto`, declared in `scope`, can be registered in
/// `pool`: it is named, its full name is free, the counts fit, and its
/// values are named, numbered and distinctly named.
pub open spec fn enum_registrable(pool: &PoolInner, proto: &EnumDescriptorProto, scope: Seq<char>) -> bool {
    &&& proto.name is Some
    &&& table_get(pool.names@, spec_join(scope, proto.name->0@)) is None
    &&& pool.enums@.len() < 0xffff_ffff
    &&& proto.value@.len() <= 0xffff_ffff
    &&& forall|k: int|
        0 <= k < proto.value@.len() ==> (#[trigger] proto.value@[k]).name is Some
            && proto.value@[k].number is Some
    &&& forall|a: int, b: int|
        0 <= a < b < proto.value@.len() ==> (#[trigger] proto.value@[a]).name->0@
            != (#[trigger] proto.value@[b]).name->0@
}

/// Value `k` of an enum passes the checks made in declaration order: it
/// is named and numbered, and no earlier value has its name.
pub open spec fn enum_value_ok(vs: Seq<EnumValueDescriptorProto>, k: int) -> bool {
    &&& vs[k].name is Some
    &&& vs[k].number is Some
    &&& forall|a: int| 0 <= a < k ==> (#[trigger] vs[a]).name->0@ != vs[k].name->0@
}

/// `r` is the error reported for value `j` of enum `full`, the first value
/// that fails [`enum_value_ok`]: a missing name is reported at the enum,
/// a missing number by a message naming both, a repeated name under the
/// value's full name.
pub open spec fn enum_value_error(
    r: Result<u32, DescriptorError>,
    vs: Seq<EnumValueDescriptorProto>,
    j: int,
    full: Seq<char>,
) -> bool {
    if vs[j].name is None {
        r matches Err(DescriptorError::MissingName { location: l }) && l@ == full
    } else if vs[j].number is None {
        r matches Err(DescriptorError::Validation(msg)) && msg@ == "enum `"@ + full + "` value `"@
            + vs[j].name->0@ + "` is missing a number"@
    } else {
        r matches Err(DescriptorError::DuplicateType(n)) && n@ == full + seq!['.'] + vs[j].name->0@
    }
}

/// Register an enum declared in `scope` (with its values) under index
/// `enums.len()`.
#[verifier::loop_isolation(false)]
pub fn register_enum(
    pool: &mut PoolInner,
    proto: &EnumDescriptorProto,
    scope: &str,
    parent: Option<u32>,
    file: u32,
    proto_path: Vec<u32>,
) -> (r: Result<u32, DescriptorError>)
    requires
        old(pool).wf_pending(1),
        file < old(pool).files@.len() + 1,
        parent matches Some(p) ==> p < old(pool).messages@.len(),
    ensures
        final(pool).wf_pending(1),
        extends(old(pool), final(pool)),
        proto.name is None ==> (r matches Err(DescriptorError::MissingName { .. })),
        (proto.name is Some && table_get(
            old(pool).names@,
            spec_join(scope@, proto.name->0@),
        ) is Some) ==> (r matches Err(DescriptorError::DuplicateType(n)) && n@ == spec_join(
            scope@,
            proto.name->0@,
        )),
        r is Ok <==> enum_registrable(old(pool), proto, scope@),
        (proto.name is Some && table_get(old(pool).names@, spec_join(scope@, proto.name->0@)) is None
            && old(pool).enums@.len() < 0xffff_ffff && proto.value@.len() <= 0xffff_ffff)
            ==> forall|j: int|
            0 <= j < proto.value@.len() && (forall|k: int| 0 <= k < j ==> enum_value_ok(proto.value@, k))
                && !enum_value_ok(proto.value@, j) ==> enum_value_error(
                r,
                proto.value@,
                j,
                spec_join(scope@, proto.name->0@),
            ),
        r is Err ==> *final(pool) == *old(pool),
        r is Err ==> reports(r->Err_0, enum_fault(*proto, scope@, names_in_use(old(pool)), old(pool).enums@.len())),
        r is Ok ==> enum_fault(*proto, scope@, names_in_use(old(pool)), old(pool).enums@.len()) is None,
        r is Ok ==> final(pool).names@.len() == old(pool).names@.len() + 1
            && final(pool).names@.last().0@ == spec_join(scope@, proto.name->0@)
            && final(pool).names@.last().1 == Definition::Enum(r->Ok_0),
        r is Ok ==> names_in_use(final(pool)) == names_in_use(old(pool)).insert(
            spec_join(scope@, proto.name->0@),
        ),
        r is Ok ==> ({
            let idx = r->Ok_0;
            let e = final(pool).enums@[idx as int];
            let full = spec_join(scope@, proto.name->0@);
            &&& proto.name is Some
            &&& idx == old(pool).enums@.len()
            &&& final(pool).enums@.len() == idx + 1
            &&& final(pool).messages@ == old(pool).messages@
            &&& e.full_name@ == full
            &&& e.name@ == proto.name->0@
            &&& e.file == file
            &&& e.parent == parent
            &&& e.proto_path@ == proto_path@
            &&& e.values@.len() == proto.value@.len()
            &&& forall|i: int|
                0 <= i < e.values@.len() ==> (#[trigger] e.values@[i]).name@
                    == proto.value@[i].name->0@ && e.values@[i].full_name@ == full + seq!['.']
                    + proto.value@[i].name->0@ && Some(e.values@[i].number)
                    == proto.value@[i].number
            &&& table_get(final(pool).names@, full) == Some(Definition::Enum(idx))
        }),
{
    proof {
        lemma_extends_refl(pool);
    }
    let name = match &proto.name {
        Some(n) => n.clone(),
        None => {
            return Err(missing_name(scope));
        },
    };
    let full_name = join(scope, name.as_str());
    if table_find(&pool.names, &full_name).is_some() {
        return Err(DescriptorError::DuplicateType(full_name));
    }
    if pool.enums.len() >= 0xffff_ffff {
        return Err(DescriptorError::Validation("too many enums in pool".to_owned()));
    }
    if proto.value.len() > 0xffff_ffff {
        return Err(DescriptorError::Validation("too many enum values".to_owned()));
    }
    let index = pool.enums.len() as u32;
    let mut values: Vec<EnumValueEntry> = Vec::new();
    let mut seen: Vec<(String, u32)> = Vec::new();
    let mut i: usize = 0;
    while i < proto.value.len()
        invariant
            i <= proto.value@.len(),
            values@.len() == i,
            seen@.len() == i,
            forall|k: int|
                0 <= k < i ==> (#[trigger] values@[k]).name@ == proto.value@[k].name->0@
                    && values@[k].full_name@ == full_name@ + seq!['.'] + proto.value@[k].name->0@
                    && Some(values@[k].number) == proto.value@[k].number
                    && proto.value@[k].name is Some,
            forall|k: int| 0 <= k < i ==> (#[trigger] seen@[k]).0@ == proto.value@[k].name->0@,
            forall|a: int, b: int|
                0 <= a < b < i ==> (#[trigger] proto.value@[a]).name->0@
                    != (#[trigger] proto.value@[b]).name->0@,
            forall|k: int| 0 <= k < i ==> enum_value_ok(proto.value@, k),
            *pool == *old(pool),
        decreases proto.value@.len() - i,
    {
        let v = &proto.value[i];
        proof {
            assert forall|j: int|
                0 <= j < proto.value@.len() && (forall|k: int| 0 <= k < j ==> enum_value_ok(proto.value@, k))
                    && !enum_value_ok(proto.value@, j) && !enum_value_ok(proto.value@, i as int)
                    implies j == i by {
                if j < i {
                    assert(enum_value_ok(proto.value@, j));
                }
                if j > i {
                    assert(enum_value_ok(proto.value@, i as int));
                }
            }
        }
        let value_name = match &v.name {
            Some(n) => n.clone(),
            None => {
                let e = missing_name(full_name.as_str());
                assert(enum_value_error(Err(e), proto.value@, i as int, full_name@));
                proof {
                    lemma_first_bad(proto.value@, 0, i as int);
                }
                return Err(e);
            },
        };
        let value_full = join_dot(full_name.as_str(), value_name.as_str());
        let number = match v.number {
            Some(n) => n,
            None => {
                let mut m = "enum `".to_owned();
                m.push_str(full_name.as_str());
                m.push_str("` value `");
                m.push_str(value_name.as_str());
                m.push_str("` is missing a number");
                assert(enum_value_error(Err(DescriptorError::Validation(m)), proto.value@, i as int, full_name@));
                proof {
                    lemma_first_bad(proto.value@, 0, i as int);
                }
                return Err(DescriptorError::Validation(m));
            },
        };
        proof {
            lemma_table_get_some(seen@, value_name@);
        }
        if table_find(&seen, &value_name).is_some() {
            proof {
                let k = choose|k: int| 0 <= k < seen@.len() && seen@[k].0@ == value_name@;
                assert(proto.value@[k].name->0@ == proto.value@[i as int].name->0@);
                assert(!enum_value_ok(proto.value@, i as int));
                lemma_first_bad(proto.value@, 0, i as int);
            }
            assert(enum_value_error(
                Err(DescriptorError::DuplicateType(value_full)),
                proto.value@,
                i as int,
                full_name@,
            ));
            return Err(DescriptorError::DuplicateType(value_full));
        }
        proof {
            assert forall|k: int| 0 <= k < i implies proto.value@[k].name->0@
                != proto.value@[i as int].name->0@ by {
                assert(seen@[k].0@ == proto.value@[k].name->0@);
            }
        }
        seen.push((value_name.clone(), i as u32));
        values.push(EnumValueEntry { name: value_name, full_name: value_full, number });
        proof {
            assert(enum_value_ok(proto.value@, i as int));
        }
        i = i + 1;
    }
    proof {
        lemma_first_bad_none(proto.value@, 0);
        lemma_table_get_push(pool.names@, full_name, Definition::Enum(index), full_name@);
        lemma_names_push(pool.names@, full_name, Definition::Enum(index));
        assert forall|k: int| 0 <= k < proto.value@.len() implies (
        #[trigger] proto.value@[k]).name is Some && proto.value@[k].number is Some by {
            assert(Some(values@[k].number) == proto.value@[k].number);
        }
    }
    let ghost old_pool = *pool;
    pool.names.push((full_name.clone(), Definition::Enum(index)));
    pool.enums.push(
        EnumEntry { full_name, name, file, parent, values, proto_path },
    );
    proof {
        assert(pool.names@.take(old_pool.names@.len() as int) =~= old_pool.names@);
        assert(pool.enums@.take(old_pool.enums@.len() as int) =~= old_pool.enums@);
        assert forall|k: int| 0 <= k < pool.names@.len() implies def_ok(
            #[trigger] pool.names@[k].1,
            pool.messages@.len(),
            pool.enums@.len(),
        ) by {
            if k < old_pool.names@.len() {
                assert(pool.names@[k] == old_pool.names@[k]);
            }
        }
        assert forall|k: int| 0 <= k < pool.enums@.len() implies (#[trigger] pool.enums@[k]).wf_in(
            pool.files@.len() + 1,
            pool.messages@.len(),
        ) by {
            if k < old_pool.enums@.len() {
                assert(pool.enums@[k] == old_pool.enums@[k]);
            }
        }
        assert forall|k: int| 0 <= k < pool.messages@.len() implies (#[trigger] pool.messages@[k]).wf_in(
            pool.files@.len() + 1,
            pool.messages@.len(),
            pool.enums@.len(),
        ) by {
            assert(old_pool.messages@[k].wf_in(
                old_pool.files@.len() + 1,
                old_pool.messages@.len(),
                old_pool.enums@.len(),
            ));
        }
        assert forall|k: int| 0 <= k < pool.files@.len() implies (#[trigger] pool.files@[k]).wf_in(
            pool.messages@.len(),
            pool.enums@.len(),
            pool.services@.len(),
        ) by {
            assert(old_pool.files@[k].wf_in(
                old_pool.messages@.len(),
                old_pool.enums@.len(),
                old_pool.services@.len(),
            ));
        }
    }
    Ok(index)
}


/// `path` with `i` appended.
fn child_path(path: &Vec<u32>, i: u32) -> (r: Vec<u32>)
    ensures
        r@ == path@.push(i),
{
    let mut out: Vec<u32> = Vec::new();
    let mut k: usize = 0;
    while k < path.len()
        invariant
            k <= path@.len(),
            out@ == path@.take(k as int),
        decreases path@.len() - k,
    {
        out.push(path[k]);
        k = k + 1;
        assert(out@ =~= path@.take(k as int));
    }
    assert(path@.take(path@.len() as int) =~= path@);
    out.push(i);
    out
}

/// Whether a message descriptor is a synthesized map entry.
pub open spec fn spec_map_entry(proto: &DescriptorProto) -> bool {
    match proto.options {
        Some(o) => o.map_entry == Some(true),
        None => false,
    }
}

/// Some entry of `msgs` from index `from` on was registered for file
/// `file` from the declaration at index path `path`.
#[verifier::opaque]
pub open spec fn has_entry(msgs: Seq<MessageEntry>, from: int, file: u32, path: Seq<u32>) -> bool {
    exists|j: int| from <= j < msgs.len() && (#[trigger] msgs[j]).file == file && msgs[j].proto_path@ == path
}

proof fn lemma_has_entry_at(msgs: Seq<MessageEntry>, j: int, from: int, file: u32, path: Seq<u32>)
    requires
        0 <= from <= j < msgs.len(),
        msgs[j].file == file,
        msgs[j].proto_path@ == path,
    ensures
        has_entry(msgs, from, file, path),
{
    reveal(has_entry);
    assert(msgs[j].file == file);
}

/// Entries survive in every table that extends the one they are in.
proof fn lemma_has_entry_grow(
    a: Seq<MessageEntry>,
    b: Seq<MessageEntry>,
    from: int,
    from2: int,
    file: u32,
    path: Seq<u32>,
)
    requires
        a.len() <= b.len(),
        b.take(a.len() as int) == a,
        0 <= from2 <= from,
        has_entry(a, from, file, path),
    ensures
        has_entry(b, from2, file, path),
{
    reveal(has_entry);
    let j = choose|j: int| from <= j < a.len() && (#[trigger] a[j]).file == file && a[j].proto_path@ == path;
    assert(b[j] == b.take(a.len() as int)[j]);
}

/// Entries survive a change that keeps every entry's file and path.
proof fn lemma_has_entry_same(
    a: Seq<MessageEntry>,
    b: Seq<MessageEntry>,
    from: int,
    file: u32,
    path: Seq<u32>,
)
    requires
        a.len() == b.len(),
        forall|j: int|
            0 <= j < a.len() ==> (#[trigger] b[j]).file == a[j].file && b[j].proto_path == a[j].proto_path,
        0 <= from,
        has_entry(a, from, file, path),
    ensures
        has_entry(b, from, file, path),
{
    reveal(has_entry);
    let j = choose|j: int| from <= j < a.len() && (#[trigger] a[j]).file == file && a[j].proto_path@ == path;
    assert(b[j].file == file);
}

/// After registering nested message `i` of `proto`, every declaration of
/// `proto` up to that nested message's subtree has an entry.
proof fn lemma_has_entry_nested(
    before: Seq<MessageEntry>,
    after: Seq<MessageEntry>,
    proto: DescriptorProto,
    proto_path: Seq<u32>,
    file: u32,
    i: u32,
    from: int,
)
    requires
        0 <= from <= before.len() <= after.len(),
        after.take(before.len() as int) == before,
        i < proto.nested_type@.len(),
        forall|q: Seq<u32>|
            #[trigger] descend(proto, q) is Some && (q.len() == 0 || q[0] < i) ==> has_entry(
                before,
                from,
                file,
                proto_path + q,
            ),
        forall|q: Seq<u32>|
            #[trigger] descend(proto.nested_type@[i as int], q) is Some ==> has_entry(
                after,
                before.len() as int,
                file,
                proto_path.push(i) + q,
            ),
    ensures
        forall|q: Seq<u32>|
            #[trigger] descend(proto, q) is Some && (q.len() == 0 || q[0] < i + 1) ==> has_entry(
                after,
                from,
                file,
                proto_path + q,
            ),
{
    assert forall|q: Seq<u32>| #[trigger] descend(proto, q) is Some && (q.len() == 0 || q[0] < i + 1) implies has_entry(
        after,
        from,
        file,
        proto_path + q,
    ) by {
        if q.len() == 0 || q[0] < i {
            lemma_has_entry_grow(before, after, from, from, file, proto_path + q);
        } else {
            let q2 = q.drop_first();
            assert(q =~= seq![i] + q2);
            lemma_descend_step(proto, i, q2);
            assert(descend(proto.nested_type@[i as int], q2) is Some);
            assert(proto_path.push(i) + q2 =~= proto_path + q);
            assert(after.take(after.len() as int) =~= after);
            lemma_has_entry_grow(after, after, before.len() as int, from, file, proto_path + q);
        }
    }
}

/// After registering top-level message `k` of file `fp`, every message
/// declaration of `fp` under the first `k + 1` top-level ones has an
/// entry.
proof fn lemma_has_entry_top(
    before: Seq<MessageEntry>,
    after: Seq<MessageEntry>,
    fp: FileDescriptorProto,
    file: u32,
    k: u32,
    from: int,
)
    requires
        0 <= from <= before.len() <= after.len(),
        after.take(before.len() as int) == before,
        k < fp.message_type@.len(),
        forall|path: Seq<u32>|
            #[trigger] spec_message_proto(&fp, path) is Some && path[0] < k ==> has_entry(
                before,
                from,
                file,
                path,
            ),
        forall|q: Seq<u32>|
            #[trigger] descend(fp.message_type@[k as int], q) is Some ==> has_entry(
                after,
                before.len() as int,
                file,
                seq![k] + q,
            ),
    ensures
        forall|path: Seq<u32>|
            #[trigger] spec_message_proto(&fp, path) is Some && path[0] < k + 1 ==> has_entry(
                after,
                from,
                file,
                path,
            ),
{
    assert forall|path: Seq<u32>| #[trigger] spec_message_proto(&fp, path) is Some && path[0] < k + 1 implies has_entry(
        after,
        from,
        file,
        path,
    ) by {
        if path[0] < k {
            lemma_has_entry_grow(before, after, from, from, file, path);
        } else {
            let q = path.drop_first();
            assert(path =~= seq![k] + q);
            assert(descend(fp.message_type@[k as int], q) is Some);
            assert(after.take(after.len() as int) =~= after);
            lemma_has_entry_grow(after, after, before.len() as int, from, file, path);
        }
    }
}

/// Message entry `e` was registered for file `file` from a declaration
/// inside `proto`, which is declared in `scope` and sits at index path
/// `path` in that file; the entry carries the declaration's full name.
pub open spec fn entry_below(
    e: MessageEntry,
    proto: DescriptorProto,
    scope: Seq<char>,
    file: u32,
    path: Seq<u32>,
) -> bool {
    &&& e.file == file
    &&& path.len() <= e.proto_path@.len()
    &&& e.proto_path@.take(path.len() as int) == path
    &&& descend(proto, e.proto_path@.skip(path.len() as int)) is Some
    &&& e.full_name@ == desc_name(proto, scope, e.proto_path@.skip(path.len() as int))
}

/// Enum declaration `e` has a value numbered 0.
pub open spec fn has_zero(e: EnumDescriptorProto) -> bool {
    exists|k: int| 0 <= k < e.value@.len() && (#[trigger] e.value@[k]).number == Some(0i32)
}

/// Enum entry `e` has a value numbered 0.
pub open spec fn entry_has_zero(e: EnumEntry) -> bool {
    exists|k: int| 0 <= k < e.values@.len() && (#[trigger] e.values@[k]).number == 0
}

/// Every enum declared inside `proto` (at any depth) has a value
/// numbered 0.
pub open spec fn zero_enums_below(proto: DescriptorProto) -> bool {
    forall|q: Seq<u32>|
        #[trigger] descend(proto, q) is Some ==> forall|j: int|
            0 <= j < descend(proto, q)->0.enum_type@.len() ==> has_zero(
                #[trigger] descend(proto, q)->0.enum_type@[j],
            )
}

/// `x` is bound to a message in `names`.
pub open spec fn binds_message(names: Seq<(String, Definition)>, x: Seq<char>) -> bool {
    table_get(names, x) matches Some(Definition::Message(_))
}

/// `x` is bound to an enum in `names`.
pub open spec fn binds_enum(names: Seq<(String, Definition)>, x: Seq<char>) -> bool {
    table_get(names, x) matches Some(Definition::Enum(_))
}

/// The full name of the message declaration reached from `m`, declared
/// in `scope`, along the nested-message index path `q`.
pub open spec fn desc_name(m: DescriptorProto, scope: Seq<char>, q: Seq<u32>) -> Seq<char>
    decreases q.len(),
{
    let full = spec_join(scope, m.name->0@);
    if q.len() > 0 && q[0] < m.nested_type@.len() {
        desc_name(m.nested_type@[q[0] as int], full, q.drop_first())
    } else {
        full
    }
}

/// Every message declared inside `proto` (itself included), which is
/// declared in `scope`, is bound to a message in `names` under its full
/// name, and every enum declared in one of them to an enum.
pub open spec fn names_bound(names: Seq<(String, Definition)>, proto: DescriptorProto, scope: Seq<char>) -> bool {
    &&& forall|q: Seq<u32>|
        #[trigger] descend(proto, q) is Some ==> binds_message(names, desc_name(proto, scope, q))
    &&& forall|q: Seq<u32>, j: int|
        descend(proto, q) is Some && 0 <= j < descend(proto, q)->0.enum_type@.len() ==> binds_enum(
            names,
            spec_join(
                desc_name(proto, scope, q),
                (#[trigger] descend(proto, q)->0.enum_type@[j]).name->0@,
            ),
        )
}

/// Bindings of a table survive in every table it is a prefix of.
proof fn lemma_names_bound_grow(
    a: Seq<(String, Definition)>,
    b: Seq<(String, Definition)>,
    proto: DescriptorProto,
    scope: Seq<char>,
)
    requires
        a.len() <= b.len(),
        b.take(a.len() as int) == a,
        names_bound(a, proto, scope),
    ensures
        names_bound(b, proto, scope),
{
    assert forall|q: Seq<u32>| #[trigger] descend(proto, q) is Some implies binds_message(
        b,
        desc_name(proto, scope, q),
    ) by {
        lemma_table_prefix(a, b, desc_name(proto, scope, q));
    }
    assert forall|q: Seq<u32>, j: int|
        descend(proto, q) is Some && 0 <= j < descend(proto, q)->0.enum_type@.len() implies binds_enum(
        b,
        spec_join(
            desc_name(proto, scope, q),
            (#[trigger] descend(proto, q)->0.enum_type@[j]).name->0@,
        ),
    ) by {
        lemma_table_prefix(
            a,
            b,
            spec_join(desc_name(proto, scope, q), descend(proto, q)->0.enum_type@[j].name->0@),
        );
    }
}

/// The bindings of a declaration follow from its own, those of its nested
/// messages and those of its own enums.
proof fn lemma_names_bound_compose(names: Seq<(String, Definition)>, proto: DescriptorProto, scope: Seq<char>)
    requires
        proto.name is Some,
        binds_message(names, spec_join(scope, proto.name->0@)),
        forall|k: int|
            0 <= k < proto.nested_type@.len() ==> names_bound(
                names,
                #[trigger] proto.nested_type@[k],
                spec_join(scope, proto.name->0@),
            ),
        forall|j: int|
            0 <= j < proto.enum_type@.len() ==> binds_enum(
                names,
                spec_join(spec_join(scope, proto.name->0@), (#[trigger] proto.enum_type@[j]).name->0@),
            ),
    ensures
        names_bound(names, proto, scope),
{
    let full = spec_join(scope, proto.name->0@);
    assert forall|q: Seq<u32>| #[trigger] descend(proto, q) is Some implies binds_message(
        names,
        desc_name(proto, scope, q),
    ) by {
        if q.len() > 0 {
            let c = proto.nested_type@[q[0] as int];
            assert(descend(proto, q) == descend(c, q.drop_first()));
            assert(names_bound(names, c, full));
            assert(descend(c, q.drop_first()) is Some);
        }
    }
    assert forall|q: Seq<u32>, j: int|
        descend(proto, q) is Some && 0 <= j < descend(proto, q)->0.enum_type@.len() implies binds_enum(
        names,
        spec_join(
            desc_name(proto, scope, q),
            (#[trigger] descend(proto, q)->0.enum_type@[j]).name->0@,
        ),
    ) by {
        if q.len() > 0 {
            let c = proto.nested_type@[q[0] as int];
            assert(descend(proto, q) == descend(c, q.drop_first()));
            assert(names_bound(names, c, full));
            assert(descend(c, q.drop_first())->0.enum_type@[j] == descend(proto, q)->0.enum_type@[j]);
        } else {
            assert(descend(proto, q) == Some(proto));
            assert(proto.enum_type@[j] == descend(proto, q)->0.enum_type@[j]);
        }
    }
}

/// `x` is the full name of a message declared inside `proto` (itself
/// included), which is declared in `scope`.
pub open spec fn message_name_below(proto: DescriptorProto, scope: Seq<char>, x: Seq<char>) -> bool {
    exists|q: Seq<u32>| #[trigger] descend(proto, q) is Some && desc_name(proto, scope, q) == x
}

/// `x` is the full name of an enum declared in one of the messages
/// inside `proto` (itself included), which is declared in `scope`.
pub open spec fn enum_name_below(proto: DescriptorProto, scope: Seq<char>, x: Seq<char>) -> bool {
    exists|q: Seq<u32>, j: int|
        descend(proto, q) is Some && 0 <= j < descend(proto, q)->0.enum_type@.len() && spec_join(
            desc_name(proto, scope, q),
            (#[trigger] descend(proto, q)->0.enum_type@[j]).name->0@,
        ) == x
}

/// Binding `e` names a declaration inside `proto` of the kind it binds.
pub open spec fn name_from(e: (String, Definition), proto: DescriptorProto, scope: Seq<char>) -> bool {
    match e.1 {
        Definition::Message(_) => message_name_below(proto, scope, e.0@),
        Definition::Enum(_) => enum_name_below(proto, scope, e.0@),
    }
}

/// A binding for a declaration inside a nested message is one for a
/// declaration inside its parent.
proof fn lemma_name_from_nested(e: (String, Definition), proto: DescriptorProto, scope: Seq<char>, i: u32)
    requires
        proto.name is Some,
        i < proto.nested_type@.len(),
        name_from(e, proto.nested_type@[i as int], spec_join(scope, proto.name->0@)),
    ensures
        name_from(e, proto, scope),
{
    let full = spec_join(scope, proto.name->0@);
    let child = proto.nested_type@[i as int];
    match e.1 {
        Definition::Message(_) => {
            let q = choose|q: Seq<u32>| #[trigger] descend(child, q) is Some && desc_name(child, full, q) == e.0@;
            let q2 = seq![i] + q;
            lemma_descend_step(proto, i, q);
            assert(q2[0] == i);
            assert(q2.drop_first() =~= q);
            assert(desc_name(proto, scope, q2) == desc_name(child, full, q));
            assert(descend(proto, q2) is Some);
        },
        Definition::Enum(_) => {
            let (q, j) = choose|q: Seq<u32>, j: int|
                descend(child, q) is Some && 0 <= j < descend(child, q)->0.enum_type@.len() && spec_join(
                    desc_name(child, full, q),
                    (#[trigger] descend(child, q)->0.enum_type@[j]).name->0@,
                ) == e.0@;
            let q2 = seq![i] + q;
            lemma_descend_step(proto, i, q);
            assert(q2[0] == i);
            assert(q2.drop_first() =~= q);
            assert(desc_name(proto, scope, q2) == desc_name(child, full, q));
            assert(descend(proto, q2)->0.enum_type@[j] == descend(child, q)->0.enum_type@[j]);
        },
    }
}

proof fn lemma_descend_step(proto: DescriptorProto, i: u32, q: Seq<u32>)
    requires
        i < proto.nested_type@.len(),
    ensures
        descend(proto, seq![i] + q) == descend(proto.nested_type@[i as int], q),
{
    assert((seq![i] + q)[0] == i);
    assert((seq![i] + q).drop_first() =~= q);
}

/// Register a message declared in `scope`, then its nested messages and
/// enums, depth first. Fields are resolved later.
#[verifier::loop_isolation(false)]
pub fn register_message(
    pool: &mut PoolInner,
    proto: &DescriptorProto,
    scope: &str,
    parent: Option<u32>,
    file: u32,
    proto_path: Vec<u32>,
) -> (r: Result<u32, DescriptorError>)
    requires
        old(pool).wf_pending(1),
        file < old(pool).files@.len() + 1,
        parent matches Some(p) ==> p < old(pool).messages@.len(),
    ensures
        final(pool).wf_pending(1),
        extends(old(pool), final(pool)),
        proto.name is None ==> (r matches Err(DescriptorError::MissingName { .. })),
        (proto.name is Some && table_get(
            old(pool).names@,
            spec_join(scope@, proto.name->0@),
        ) is Some) ==> (r matches Err(DescriptorError::DuplicateType(n)) && n@ == spec_join(
            scope@,
            proto.name->0@,
        )),
        r is Ok <==> msg_reg(
            *proto,
            scope@,
            names_in_use(old(pool)),
            old(pool).messages@.len(),
            old(pool).enums@.len(),
        ) is Some,
        r is Ok ==> msg_reg(
            *proto,
            scope@,
            names_in_use(old(pool)),
            old(pool).messages@.len(),
            old(pool).enums@.len(),
        ) == Some((names_in_use(final(pool)), final(pool).messages@.len(), final(pool).enums@.len())),
        r is Ok ==> forall|j: int|
            old(pool).messages@.len() <= j < final(pool).messages@.len() ==> entry_below(
                #[trigger] final(pool).messages@[j],
                *proto,
                scope@,
                file,
                proto_path@,
            ),
        r is Ok ==> names_bound(final(pool).names@, *proto, scope@),
        (r is Ok && zero_enums_below(*proto)) ==> forall|e: int|
            old(pool).enums@.len() <= e < final(pool).enums@.len() ==> entry_has_zero(
                #[trigger] final(pool).enums@[e],
            ),
        r is Ok ==> forall|e: int|
            old(pool).enums@.len() <= e < final(pool).enums@.len() ==> (
            #[trigger] final(pool).enums@[e]).file == file,
        r is Ok ==> forall|k: int|
            old(pool).names@.len() <= k < final(pool).names@.len() ==> name_from(
                #[trigger] final(pool).names@[k],
                *proto,
                scope@,
            ),
        r is Err ==> reports(
            r->Err_0,
            msg_fault(*proto, scope@, names_in_use(old(pool)), old(pool).messages@.len(), old(pool).enums@.len()),
        ),
        r is Ok ==> msg_fault(
            *proto,
            scope@,
            names_in_use(old(pool)),
            old(pool).messages@.len(),
            old(pool).enums@.len(),
        ) is None,
        r is Ok ==> forall|q: Seq<u32>|
            #[trigger] descend(*proto, q) is Some ==> has_entry(
                final(pool).messages@,
                old(pool).messages@.len() as int,
                file,
                proto_path@ + q,
            ),
        r is Ok ==> ({
            let idx = r->Ok_0;
            let e = final(pool).messages@[idx as int];
            let full = spec_join(scope@, proto.name->0@);
            &&& proto.name is Some
            &&& idx == old(pool).messages@.len()
            &&& idx < final(pool).messages@.len()
            &&& e.full_name@ == full
            &&& e.name@ == proto.name->0@
            &&& e.file == file
            &&& e.parent == parent
            &&& e.proto_path@ == proto_path@
            &&& e.is_map_entry == spec_map_entry(proto)
            &&& e.fields@.len() == 0
            &&& e.oneofs@.len() == 0
            &&& e.nested_messages@.len() == proto.nested_type@.len()
            &&& e.nested_enums@.len() == proto.enum_type@.len()
            &&& table_get(final(pool).names@, full) == Some(Definition::Message(idx))
        }),
    decreases proto,
{
    proof {
        lemma_extends_refl(pool);
    }
    let name = match &proto.name {
        Some(n) => n.clone(),
        None => {
            return Err(missing_name(scope));
        },
    };
    let full_name = join(scope, name.as_str());
    let ghost target = msg_reg(
        *proto,
        scope@,
        names_in_use(pool),
        pool.messages@.len(),
        pool.enums@.len(),
    );
    let ghost fault0 = msg_fault(
        *proto,
        scope@,
        names_in_use(pool),
        pool.messages@.len(),
        pool.enums@.len(),
    );
    if table_find(&pool.names, &full_name).is_some() {
        return Err(DescriptorError::DuplicateType(full_name));
    }
    if pool.messages.len() >= 0xffff_ffff {
        return Err(DescriptorError::Validation("too many messages in pool".to_owned()));
    }
    if proto.nested_type.len() > 0xffff_ffff || proto.enum_type.len() > 0xffff_ffff {
        return Err(DescriptorError::Validation("too many nested types".to_owned()));
    }
    let index = pool.messages.len() as u32;
    let is_map_entry = match proto.options {
        Some(o) => o.map_entry == Some(true),
        None => false,
    };
    proof {
        lemma_table_get_push(pool.names@, full_name, Definition::Message(index), full_name@);
        lemma_names_push(pool.names@, full_name, Definition::Message(index));
    }
    let ghost p0 = *pool;
    pool.names.push((full_name.clone(), Definition::Message(index)));
    pool.messages.push(
        MessageEntry {
            full_name: full_name.clone(),
            name,
            file,
            parent,
            proto_path: child_path_copy(&proto_path),
            fields: Vec::new(),
            oneofs: Vec::new(),
            nested_messages: Vec::new(),
            nested_enums: Vec::new(),
            is_map_entry,
        },
    );
    proof {
        assert(pool.names@.take(p0.names@.len() as int) =~= p0.names@);
        assert(pool.messages@.take(p0.messages@.len() as int) =~= p0.messages@);
        assert(pool.enums@.take(p0.enums@.len() as int) =~= p0.enums@);
        assert forall|k: int| 0 <= k < pool.names@.len() implies def_ok(
            #[trigger] pool.names@[k].1,
            pool.messages@.len(),
            pool.enums@.len(),
        ) by {
            if k < p0.names@.len() {
                assert(pool.names@[k] == p0.names@[k]);
            }
        }
        assert forall|k: int| 0 <= k < pool.messages@.len() implies (#[trigger] pool.messages@[k]).wf_in(
            pool.files@.len() + 1,
            pool.messages@.len(),
            pool.enums@.len(),
        ) by {
            if k < p0.messages@.len() {
                assert(pool.messages@[k] == p0.messages@[k]);
                assert(p0.messages@[k].wf_in(
                    p0.files@.len() + 1,
                    p0.messages@.len(),
                    p0.enums@.len(),
                ));
            }
        }
        assert forall|k: int| 0 <= k < pool.files@.len() implies (#[trigger] pool.files@[k]).wf_in(
            pool.messages@.len(),
            pool.enums@.len(),
            pool.services@.len(),
        ) by {
            assert(p0.files@[k].wf_in(
                p0.messages@.len(),
                p0.enums@.len(),
                p0.services@.len(),
            ));
        }
        assert forall|k: int| 0 <= k < pool.enums@.len() implies (#[trigger] pool.enums@[k]).wf_in(
            pool.files@.len() + 1,
            pool.messages@.len(),
        ) by {
            assert(p0.enums@[k].wf_in(p0.files@.len() + 1, p0.messages@.len()));
        }
        assert(extends(&p0, pool));
        lemma_extends_trans(old(pool), &p0, pool);
    }
    let ghost entry0 = pool.messages@[index as int];
    let ghost p1 = *pool;
    proof {
        assert(descend(*proto, Seq::<u32>::empty()) == Some(*proto));
        assert(desc_name(*proto, scope@, Seq::<u32>::empty()) == full_name@);
        assert(pool.names@[p0.names@.len() as int].0@ == full_name@);
        assert forall|k: int| old(pool).names@.len() <= k < pool.names@.len() implies name_from(
            #[trigger] pool.names@[k],
            *proto,
            scope@,
        ) by {
            assert(k == p0.names@.len());
            assert(pool.names@[k].1 == Definition::Message(index));
            assert(message_name_below(*proto, scope@, pool.names@[k].0@));
        }
        lemma_extends_refl(&p1);
        let pp = entry0.proto_path@;
        assert(pp == proto_path@);
        assert(pp.take(proto_path@.len() as int) =~= proto_path@);
        assert(pp.skip(proto_path@.len() as int) =~= Seq::<u32>::empty());
        assert(entry_below(pool.messages@[index as int], *proto, scope@, file, proto_path@));
        assert(pool.messages@.len() == old(pool).messages@.len() + 1);
        assert(proto_path@ + Seq::<u32>::empty() =~= proto_path@);
        lemma_has_entry_at(
            pool.messages@,
            index as int,
            old(pool).messages@.len() as int,
            file,
            proto_path@ + Seq::<u32>::empty(),
        );
    }
    let mut nested_messages: Vec<u32> = Vec::new();
    let mut i: usize = 0;
    while i < proto.nested_type.len()
        invariant
            i <= proto.nested_type@.len(),
            pool.wf_pending(1),
            extends(&p1, pool),
            extends(old(pool), pool),
            pool.messages@[index as int] == entry0,
            index < pool.messages@.len(),
            nested_messages@.len() == i,
            forall|k: int|
                0 <= k < nested_messages@.len() ==> #[trigger] nested_messages@[k]
                    < pool.messages@.len(),
            table_get(pool.names@, full_name@) == Some(Definition::Message(index)),
            forall|j: int|
                old(pool).messages@.len() <= j < pool.messages@.len() ==> entry_below(
                    #[trigger] pool.messages@[j],
                    *proto,
                    scope@,
                    file,
                    proto_path@,
                ),
            zero_enums_below(*proto) ==> forall|e: int|
                old(pool).enums@.len() <= e < pool.enums@.len() ==> entry_has_zero(
                    #[trigger] pool.enums@[e],
                ),
            forall|e: int|
                old(pool).enums@.len() <= e < pool.enums@.len() ==> (#[trigger] pool.enums@[e]).file
                    == file,
            forall|k: int|
                old(pool).names@.len() <= k < pool.names@.len() ==> name_from(
                    #[trigger] pool.names@[k],
                    *proto,
                    scope@,
                ),
            forall|k: int|
                0 <= k < i ==> names_bound(pool.names@, #[trigger] proto.nested_type@[k], full_name@),
            forall|q: Seq<u32>|
                #[trigger] descend(*proto, q) is Some && (q.len() == 0 || q[0] < i) ==> has_entry(
                    pool.messages@,
                    old(pool).messages@.len() as int,
                    file,
                    proto_path@ + q,
                ),
            fault0 == nested_then_enums_fault(
                *proto,
                full_name@,
                i as int,
                names_in_use(pool),
                pool.messages@.len(),
                pool.enums@.len(),
            ),
            target == match nested_reg(
                *proto,
                full_name@,
                i as int,
                names_in_use(pool),
                pool.messages@.len(),
                pool.enums@.len(),
            ) {
                None => None,
                Some((t, m, e)) => enums_reg(proto.enum_type@, full_name@, 0, t, m, e),
            },
        decreases proto.nested_type@.len() - i,
    {
        let ghost before = *pool;
        let path = child_path(&proto_path, i as u32);
        proof {
            if zero_enums_below(*proto) {
                let c = proto.nested_type@[i as int];
                assert forall|q: Seq<u32>, jj: int|
                    #[trigger] descend(c, q) is Some && 0 <= jj < descend(c, q)->0.enum_type@.len()
                        implies has_zero(#[trigger] descend(c, q)->0.enum_type@[jj]) by {
                    lemma_descend_step(*proto, i as u32, q);
                    assert(descend(*proto, seq![i as u32] + q) == descend(c, q));
                }
                assert(zero_enums_below(c));
            }
        }
        let nested = register_message(
            pool,
            &proto.nested_type[i],
            full_name.as_str(),
            Some(index),
            file,
            path,
        );
        match nested {
            Ok(n) => {
                nested_messages.push(n);
            },
            Err(e) => {
                proof {
                    lemma_extends_trans(old(pool), &before, pool);
                }
                return Err(e);
            },
        }
        proof {
            lemma_extends_trans(&p1, &before, pool);
            lemma_extends_trans(old(pool), &before, pool);
            assert(pool.messages@[index as int] == pool.messages@.take(
                before.messages@.len() as int,
            )[index as int]);
            lemma_table_prefix(before.names@, pool.names@, full_name@);
            let l: int = proto_path@.len() as int;
            assert forall|j: int|
                old(pool).messages@.len() <= j < pool.messages@.len() implies entry_below(
                #[trigger] pool.messages@[j],
                *proto,
                scope@,
                file,
                proto_path@,
            ) by {
                if j < before.messages@.len() {
                    assert(pool.messages@[j] == pool.messages@.take(before.messages@.len() as int)[j]);
                    assert(entry_below(before.messages@[j], *proto, scope@, file, proto_path@));
                } else {
                    let e = pool.messages@[j];
                    assert(entry_below(
                        e,
                        proto.nested_type@[i as int],
                        full_name@,
                        file,
                        proto_path@.push(i as u32),
                    ));
                    let pp = e.proto_path@;
                    assert(pp.take(l + 1) == proto_path@.push(i as u32));
                    assert(pp.take(l) =~= pp.take(l + 1).take(l));
                    assert(pp.take(l) =~= proto_path@);
                    assert(pp[l] == pp.take(l + 1)[l]);
                    assert(pp.skip(l) =~= seq![i as u32] + pp.skip(l + 1));
                    lemma_descend_step(*proto, i as u32, pp.skip(l + 1));
                    let q2 = seq![i as u32] + pp.skip(l + 1);
                    assert(q2[0] == i as u32);
                    assert(q2.drop_first() =~= pp.skip(l + 1));
                    assert(desc_name(*proto, scope@, q2) == desc_name(
                        proto.nested_type@[i as int],
                        full_name@,
                        pp.skip(l + 1),
                    ));
                }
            }
            if zero_enums_below(*proto) {
                assert forall|e: int| old(pool).enums@.len() <= e < pool.enums@.len() implies entry_has_zero(
                    #[trigger] pool.enums@[e],
                ) by {
                    if e < before.enums@.len() {
                        assert(pool.enums@[e] == pool.enums@.take(before.enums@.len() as int)[e]);
                        assert(entry_has_zero(before.enums@[e]));
                    }
                }
            }
            assert forall|e: int| old(pool).enums@.len() <= e < pool.enums@.len() implies (
            #[trigger] pool.enums@[e]).file == file by {
                if e < before.enums@.len() {
                    assert(pool.enums@[e] == pool.enums@.take(before.enums@.len() as int)[e]);
                    assert(before.enums@[e].file == file);
                }
            }
            assert forall|k: int| old(pool).names@.len() <= k < pool.names@.len() implies name_from(
                #[trigger] pool.names@[k],
                *proto,
                scope@,
            ) by {
                if k < before.names@.len() {
                    assert(pool.names@[k] == pool.names@.take(before.names@.len() as int)[k]);
                    assert(name_from(before.names@[k], *proto, scope@));
                } else {
                    assert(name_from(pool.names@[k], proto.nested_type@[i as int], full_name@));
                    lemma_name_from_nested(pool.names@[k], *proto, scope@, i as u32);
                }
            }
            assert forall|k: int| 0 <= k < i + 1 implies names_bound(
                pool.names@,
                #[trigger] proto.nested_type@[k],
                full_name@,
            ) by {
                if k < i {
                    lemma_names_bound_grow(before.names@, pool.names@, proto.nested_type@[k], full_name@);
                }
            }
            lemma_has_entry_nested(
                before.messages@,
                pool.messages@,
                *proto,
                proto_path@,
                file,
                i as u32,
                old(pool).messages@.len() as int,
            );
        }
        i = i + 1;
    }
    let mut nested_enums: Vec<u32> = Vec::new();
    let mut j: usize = 0;
    while j < proto.enum_type.len()
        invariant
            j <= proto.enum_type@.len(),
            pool.wf_pending(1),
            extends(&p1, pool),
            extends(old(pool), pool),
            pool.messages@[index as int] == entry0,
            index < pool.messages@.len(),
            nested_messages@.len() == proto.nested_type@.len(),
            forall|k: int|
                0 <= k < nested_messages@.len() ==> #[trigger] nested_messages@[k]
                    < pool.messages@.len(),
            nested_enums@.len() == j,
            forall|k: int|
                0 <= k < nested_enums@.len() ==> #[trigger] nested_enums@[k] < pool.enums@.len(),
            table_get(pool.names@, full_name@) == Some(Definition::Message(index)),
            forall|j: int|
                old(pool).messages@.len() <= j < pool.messages@.len() ==> entry_below(
                    #[trigger] pool.messages@[j],
                    *proto,
                    scope@,
                    file,
                    proto_path@,
                ),
            zero_enums_below(*proto) ==> forall|e: int|
                old(pool).enums@.len() <= e < pool.enums@.len() ==> entry_has_zero(
                    #[trigger] pool.enums@[e],
                ),
            forall|e: int|
                old(pool).enums@.len() <= e < pool.enums@.len() ==> (#[trigger] pool.enums@[e]).file
                    == file,
            forall|k: int|
                old(pool).names@.len() <= k < pool.names@.len() ==> name_from(
                    #[trigger] pool.names@[k],
                    *proto,
                    scope@,
                ),
            forall|k: int|
                0 <= k < proto.nested_type@.len() ==> names_bound(
                    pool.names@,
                    #[trigger] proto.nested_type@[k],
                    full_name@,
                ),
            forall|q: Seq<u32>|
                #[trigger] descend(*proto, q) is Some ==> has_entry(
                    pool.messages@,
                    old(pool).messages@.len() as int,
                    file,
                    proto_path@ + q,
                ),
            forall|jj: int|
                0 <= jj < j ==> binds_enum(
                    pool.names@,
                    spec_join(full_name@, (#[trigger] proto.enum_type@[jj]).name->0@),
                ),
            fault0 == enums_fault(
                proto.enum_type@,
                full_name@,
                j as int,
                names_in_use(pool),
                pool.messages@.len(),
                pool.enums@.len(),
            ),
            target == enums_reg(
                proto.enum_type@,
                full_name@,
                j as int,
                names_in_use(pool),
                pool.messages@.len(),
                pool.enums@.len(),
            ),
        decreases proto.enum_type@.len() - j,
    {
        let ghost before = *pool;
        proof {
            if zero_enums_below(*proto) {
                assert(descend(*proto, Seq::<u32>::empty()) == Some(*proto));
                assert(has_zero(descend(*proto, Seq::<u32>::empty())->0.enum_type@[j as int]));
                assert(has_zero(proto.enum_type@[j as int]));
            }
        }
        let path = child_path(&proto_path, j as u32);
        let nested = register_enum(
            pool,
            &proto.enum_type[j],
            full_name.as_str(),
            Some(index),
            file,
            path,
        );
        match nested {
            Ok(n) => {
                nested_enums.push(n);
                proof {
                    assert forall|e: int| old(pool).enums@.len() <= e < pool.enums@.len() implies (
                    #[trigger] pool.enums@[e]).file == file by {
                        if e < before.enums@.len() {
                            assert(pool.enums@[e] == pool.enums@.take(before.enums@.len() as int)[e]);
                            assert(before.enums@[e].file == file);
                        }
                    }
                    assert forall|k: int| old(pool).names@.len() <= k < pool.names@.len() implies name_from(
                        #[trigger] pool.names@[k],
                        *proto,
                        scope@,
                    ) by {
                        if k < before.names@.len() {
                            assert(pool.names@[k] == pool.names@.take(before.names@.len() as int)[k]);
                            assert(name_from(before.names@[k], *proto, scope@));
                        } else {
                            let q = Seq::<u32>::empty();
                            assert(descend(*proto, q) == Some(*proto));
                            assert(desc_name(*proto, scope@, q) == full_name@);
                            assert(descend(*proto, q)->0.enum_type@[j as int] == proto.enum_type@[j as int]);
                            assert(enum_name_below(*proto, scope@, pool.names@[k].0@));
                        }
                    }
                    if zero_enums_below(*proto) {
                        let ep = proto.enum_type@[j as int];
                        let w = choose|k: int| 0 <= k < ep.value@.len() && (#[trigger] ep.value@[k]).number
                            == Some(0i32);
                        let ne = pool.enums@[n as int];
                        assert(Some(ne.values@[w].number) == ep.value@[w].number);
                        assert(entry_has_zero(ne));
                        assert forall|e: int| old(pool).enums@.len() <= e < pool.enums@.len() implies entry_has_zero(
                            #[trigger] pool.enums@[e],
                        ) by {
                            if e < before.enums@.len() {
                                assert(pool.enums@[e] == pool.enums@.take(before.enums@.len() as int)[e]);
                                assert(entry_has_zero(before.enums@[e]));
                            }
                        }
                    }
                }
            },
            Err(e) => {
                proof {
                    lemma_extends_trans(old(pool), &before, pool);
                }
                return Err(e);
            },
        }
        proof {
            lemma_extends_trans(&p1, &before, pool);
            lemma_extends_trans(old(pool), &before, pool);
            assert(pool.messages@[index as int] == pool.messages@.take(
                before.messages@.len() as int,
            )[index as int]);
            lemma_table_prefix(before.names@, pool.names@, full_name@);
            assert forall|k: int| 0 <= k < proto.nested_type@.len() implies names_bound(
                pool.names@,
                #[trigger] proto.nested_type@[k],
                full_name@,
            ) by {
                lemma_names_bound_grow(before.names@, pool.names@, proto.nested_type@[k], full_name@);
            }
            assert forall|jj: int| 0 <= jj < j + 1 implies binds_enum(
                pool.names@,
                spec_join(full_name@, (#[trigger] proto.enum_type@[jj]).name->0@),
            ) by {
                if jj < j {
                    lemma_table_prefix(
                        before.names@,
                        pool.names@,
                        spec_join(full_name@, proto.enum_type@[jj].name->0@),
                    );
                }
            }
        }
        j = j + 1;
    }
    proof {
        lemma_names_bound_compose(pool.names@, *proto, scope@);
    }
    let ghost p2 = *pool;
    pool.messages[index as usize].nested_messages = nested_messages;
    pool.messages[index as usize].nested_enums = nested_enums;
    proof {
        assert forall|j: int| 0 <= j < p2.messages@.len() implies (#[trigger] pool.messages@[j]).file
            == p2.messages@[j].file && pool.messages@[j].proto_path == p2.messages@[j].proto_path by {}
        assert forall|q: Seq<u32>| #[trigger] descend(*proto, q) is Some implies has_entry(
            pool.messages@,
            old(pool).messages@.len() as int,
            file,
            proto_path@ + q,
        ) by {
            lemma_has_entry_same(p2.messages@, pool.messages@, old(pool).messages@.len() as int, file, proto_path@ + q);
        }
        assert forall|j: int|
            old(pool).messages@.len() <= j < pool.messages@.len() implies entry_below(
            #[trigger] pool.messages@[j],
            *proto,
            scope@,
            file,
            proto_path@,
        ) by {
            assert(entry_below(p2.messages@[j], *proto, scope@, file, proto_path@));
        }
        assert(pool.messages@ =~= p2.messages@.update(index as int, pool.messages@[index as int]));
        assert(pool.messages@.take(old(pool).messages@.len() as int) =~= p2.messages@.take(
            old(pool).messages@.len() as int,
        ));
        assert forall|k: int| 0 <= k < pool.messages@.len() implies (#[trigger] pool.messages@[k]).wf_in(
            pool.files@.len() + 1,
            pool.messages@.len(),
            pool.enums@.len(),
        ) by {
            if k != index {
                assert(pool.messages@[k] == p2.messages@[k]);
                assert(p2.messages@[k].wf_in(
                    p2.files@.len() + 1,
                    p2.messages@.len(),
                    p2.enums@.len(),
                ));
            }
        }
        assert forall|k: int| 0 <= k < pool.files@.len() implies (#[trigger] pool.files@[k]).wf_in(
            pool.messages@.len(),
            pool.enums@.len(),
            pool.services@.len(),
        ) by {
            assert(p2.files@[k].wf_in(
                p2.messages@.len(),
                p2.enums@.len(),
                p2.services@.len(),
            ));
        }
        assert forall|k: int| 0 <= k < pool.enums@.len() implies (#[trigger] pool.enums@[k]).wf_in(
            pool.files@.len() + 1,
            pool.messages@.len(),
        ) by {
            assert(p2.enums@[k].wf_in(p2.files@.len() + 1, p2.messages@.len()));
        }
    }
    Ok(index)
}

/// A copy of an index path.
fn child_path_copy(path: &Vec<u32>) -> (r: Vec<u32>)
    ensures
        r@ == path@,
{
    let mut out: Vec<u32> = Vec::new();
    let mut k: usize = 0;
    while k < path.len()
        invariant
            k <= path@.len(),
            out@ == path@.take(k as int),
        decreases path@.len() - k,
    {
        out.push(path[k]);
        k = k + 1;
        assert(out@ =~= path@.take(k as int));
    }
    assert(path@.take(path@.len() as int) =~= path@);
    out
}


// ── resolution (pass 2) ─────────────────────────────────────────────────

proof fn lemma_table_def_ok(t: Seq<(String, Definition)>, key: Seq<char>, nm: nat, ne: nat)
    requires
        forall|i: int| 0 <= i < t.len() ==> def_ok(#[trigger] t[i].1, nm, ne),
    ensures
        table_get(t, key) matches Some(d) ==> def_ok(d, nm, ne),
{
    lemma_table_get_some(t, key);
}

proof fn lemma_relative_def_ok(
    t: Seq<(String, Definition)>,
    scope: Seq<char>,
    name: Seq<char>,
    nm: nat,
    ne: nat,
)
    requires
        forall|i: int| 0 <= i < t.len() ==> def_ok(#[trigger] t[i].1, nm, ne),
    ensures
        spec_resolve_relative(t, scope, name) matches Some(d) ==> def_ok(d, nm, ne),
    decreases scope.len(),
{
    lemma_table_def_ok(t, spec_join(scope, name), nm, ne);
    if scope.len() > 0 {
        lemma_last_dot(scope);
        lemma_relative_def_ok(t, parent_scope(scope), name, nm, ne);
    }
}

/// A kind resolved against a table of valid definitions is valid.
pub proof fn lemma_resolve_kind_ok(
    t: Seq<(String, Definition)>,
    scope: Seq<char>,
    p: &FieldDescriptorProto,
    nm: nat,
    ne: nat,
)
    requires
        forall|i: int| 0 <= i < t.len() ==> def_ok(#[trigger] t[i].1, nm, ne),
    ensures
        spec_resolve_kind(t, scope, p) matches Some(k) ==> kind_ok(k, nm, ne),
{
    if p.type_path is Some {
        let tn = p.type_path->0@;
        lemma_relative_def_ok(t, scope, tn, nm, ne);
        if tn.len() > 0 {
            lemma_table_def_ok(t, tn.drop_first(), nm, ne);
        }
    }
}

/// Positions (in order) of the fields that belong to oneof `o`.
pub open spec fn oneof_members(fs: Seq<FieldEntry>, o: u32) -> Seq<u32>
    decreases fs.len(),
{
    if fs.len() == 0 {
        seq![]
    } else {
        let prev = oneof_members(fs.drop_last(), o);
        if fs.last().oneof_index == Some(o) {
            prev.push((fs.len() - 1) as u32)
        } else {
            prev
        }
    }
}

proof fn lemma_oneof_members_bound(fs: Seq<FieldEntry>, o: u32)
    requires
        fs.len() <= u32::MAX,
    ensures
        forall|j: int|
            0 <= j < oneof_members(fs, o).len() ==> #[trigger] oneof_members(fs, o)[j] < fs.len(),
    decreases fs.len(),
{
    if fs.len() > 0 {
        lemma_oneof_members_bound(fs.drop_last(), o);
        let prev = oneof_members(fs.drop_last(), o);
        assert forall|j: int| 0 <= j < oneof_members(fs, o).len() implies #[trigger] oneof_members(
            fs,
            o,
        )[j] < fs.len() by {
            if j < prev.len() {
                assert(oneof_members(fs, o)[j] == prev[j]);
            }
        }
    }
}

/// The fields of `fs` that belong to oneof `o`.
fn members_of(fs: &Vec<FieldEntry>, o: u32) -> (r: Vec<u32>)
    requires
        fs@.len() <= u32::MAX,
    ensures
        r@ == oneof_members(fs@, o),
{
    let mut out: Vec<u32> = Vec::new();
    let mut i: usize = 0;
    while i < fs.len()
        invariant
            i <= fs@.len() <= u32::MAX,
            out@ == oneof_members(fs@.take(i as int), o),
        decreases fs@.len() - i,
    {
        assert(fs@.take(i + 1).drop_last() =~= fs@.take(i as int));
        if fs[i].oneof_index == Some(o) {
            out.push(i as u32);
        }
        i = i + 1;
    }
    assert(fs@.take(fs@.len() as int) =~= fs@);
    out
}

/// Whether a oneof with these members is the synthetic oneof of a single
/// proto3 `optional` field.
pub open spec fn spec_synthetic(members: Seq<u32>, fields: Seq<FieldDescriptorProto>) -> bool {
    members.len() == 1 && members[0] < fields.len() && fields[members[0] as int].proto3_optional
        == Some(true)
}

fn has_number(fs: &Vec<FieldEntry>, n: u32) -> (r: bool)
    ensures
        r <==> exists|k: int| 0 <= k < fs@.len() && #[trigger] fs@[k].number == n,
{
    let mut i: usize = 0;
    while i < fs.len()
        invariant
            i <= fs@.len(),
            forall|k: int| 0 <= k < i ==> #[trigger] fs@[k].number != n,
        decreases fs@.len() - i,
    {
        if fs[i].number == n {
            return true;
        }
        i = i + 1;
    }
    false
}

fn has_name(fs: &Vec<FieldEntry>, name: &String) -> (r: bool)
    ensures
        r <==> exists|k: int| 0 <= k < fs@.len() && #[trigger] fs@[k].name@ == name@,
{
    let mut i: usize = 0;
    while i < fs.len()
        invariant
            i <= fs@.len(),
            forall|k: int| 0 <= k < i ==> #[trigger] fs@[k].name@ != name@,
        decreases fs@.len() - i,
    {
        if fs[i].name == *name {
            return true;
        }
        i = i + 1;
    }
    false
}

/// What resolving the fields of a message yields: one entry per field
/// descriptor, valid kinds, distinct numbers and names, oneof entries
/// listing exactly their member fields.
pub open spec fn fields_resolved(
    pool: &PoolInner,
    scope: Seq<char>,
    proto3: bool,
    proto: &DescriptorProto,
    fs: Seq<FieldEntry>,
    os: Seq<OneofEntry>,
) -> bool {
    &&& fs.len() == proto.field@.len()
    &&& fs.len() <= u32::MAX
    &&& forall|i: int|
        0 <= i < fs.len() ==> spec_field_entry_matches(
            &#[trigger] fs[i],
            pool,
            scope,
            proto3,
            &proto.field@[i],
            i as u32,
        )
    &&& forall|i: int|
        0 <= i < fs.len() ==> kind_ok(
            #[trigger] fs[i].kind,
            pool.messages@.len(),
            pool.enums@.len(),
        ) && (fs[i].oneof_index matches Some(o) ==> o < os.len())
    &&& forall|i: int, j: int| 0 <= i < j < fs.len() ==> #[trigger] fs[i].number != #[trigger] fs[j].number
    &&& forall|i: int, j: int| 0 <= i < j < fs.len() ==> #[trigger] fs[i].name@ != #[trigger] fs[j].name@
    &&& os.len() == proto.oneof_decl@.len()
    &&& os.len() < 0x8000_0000
    &&& forall|o: int|
        0 <= o < os.len() ==> {
            &&& (#[trigger] os[o]).name@ == proto.oneof_decl@[o].name->0@
            &&& os[o].full_name@ == scope + seq!['.'] + os[o].name@
            &&& os[o].proto_index == o
            &&& os[o].field_indices@ == oneof_members(fs, o as u32)
            &&& os[o].is_synthetic == spec_synthetic(os[o].field_indices@, proto.field@)
        }
}

fn oneof_names_of(proto: &DescriptorProto, scope: &String) -> (r: Result<Vec<String>, DescriptorError>)
    ensures
        r is Ok <==> forall|k: int|
            0 <= k < proto.oneof_decl@.len() ==> (#[trigger] proto.oneof_decl@[k]).name is Some,
        r is Ok ==> r->Ok_0@.len() == proto.oneof_decl@.len() && forall|k: int|
            0 <= k < proto.oneof_decl@.len() ==> (#[trigger] r->Ok_0@[k])@
                == proto.oneof_decl@[k].name->0@ && (proto.oneof_decl@[k].name is Some),
{
    let mut names: Vec<String> = Vec::new();
    let mut d: usize = 0;
    while d < proto.oneof_decl.len()
        invariant
            d <= proto.oneof_decl@.len(),
            names@.len() == d,
            forall|k: int|
                0 <= k < d ==> (#[trigger] names@[k])@ == proto.oneof_decl@[k].name->0@ && (
                proto.oneof_decl@[k].name is Some),
        decreases proto.oneof_decl@.len() - d,
    {
        let n = match &proto.oneof_decl[d].name {
            Some(n) => n.clone(),
            None => {
                return Err(missing_name(scope.as_str()));
            },
        };
        names.push(n);
        d = d + 1;
    }
    assert forall|k: int| 0 <= k < proto.oneof_decl@.len() implies (
    #[trigger] proto.oneof_decl@[k]).name is Some by {
        assert((names@[k])@ == proto.oneof_decl@[k].name->0@);
    }
    Ok(names)
}

/// The fields and oneofs of message descriptor `proto`, declared as
/// `scope`, can be resolved: their counts fit, every oneof is named, every
/// field resolves, no two fields share a number or a name, and every oneof
/// reference is in range.
pub open spec fn fields_resolvable(
    pool: &PoolInner,
    scope: Seq<char>,
    proto3: bool,
    proto: &DescriptorProto,
) -> bool {
    &&& proto.field@.len() <= 0xffff_ffff
    &&& proto.oneof_decl@.len() <= 0x7fff_ffff
    &&& forall|k: int| 0 <= k < proto.oneof_decl@.len() ==> (#[trigger] proto.oneof_decl@[k]).name is Some
    &&& forall|k: int|
        0 <= k < proto.field@.len() ==> spec_field_ok(pool, scope, proto3, &#[trigger] proto.field@[k])
    &&& forall|a: int, b: int|
        0 <= a < b < proto.field@.len() ==> (#[trigger] proto.field@[a]).number->0
            != (#[trigger] proto.field@[b]).number->0
    &&& forall|a: int, b: int|
        0 <= a < b < proto.field@.len() ==> (#[trigger] proto.field@[a]).name->0@
            != (#[trigger] proto.field@[b]).name->0@
    &&& forall|k: int|
        0 <= k < proto.field@.len() ==> ((#[trigger] proto.field@[k]).oneof_index matches Some(i)
            ==> crate::wire::spec_u32_of_int(i as int) < proto.oneof_decl@.len())
}

/// Resolve the fields and oneofs of message descriptor `proto`, declared
/// as `scope`.
#[verifier::loop_isolation(false)]
pub fn resolve_fields(pool: &PoolInner, scope: &String, proto3: bool, proto: &DescriptorProto) -> (r:
    Result<(Vec<FieldEntry>, Vec<OneofEntry>), DescriptorError>)
    requires
        pool.wf(),
    ensures
        r is Ok <==> fields_resolvable(pool, scope@, proto3, proto),
        r is Ok ==> fields_resolved(pool, scope@, proto3, proto, r->Ok_0.0@, r->Ok_0.1@),
{
    if proto.field.len() > 0xffff_ffff || proto.oneof_decl.len() > 0x7fff_ffff {
        return Err(DescriptorError::Validation("too many fields in message".to_owned()));
    }
    let oneof_names = match oneof_names_of(proto, scope) {
        Ok(v) => v,
        Err(e) => {
            return Err(e);
        },
    };
    let mut fields: Vec<FieldEntry> = Vec::new();
    let mut i: usize = 0;
    while i < proto.field.len()
        invariant
            i <= proto.field@.len(),
            fields@.len() == i,
            forall|k: int|
                0 <= k < i ==> spec_field_entry_matches(
                    &#[trigger] fields@[k],
                    pool,
                    scope@,
                    proto3,
                    &proto.field@[k],
                    k as u32,
                ),
            forall|k: int|
                0 <= k < i ==> kind_ok(
                    #[trigger] fields@[k].kind,
                    pool.messages@.len(),
                    pool.enums@.len(),
                ) && (fields@[k].oneof_index matches Some(x) ==> x < oneof_names@.len()),
            forall|a: int, b: int|
                0 <= a < b < i ==> #[trigger] fields@[a].number != #[trigger] fields@[b].number,
            forall|a: int, b: int|
                0 <= a < b < i ==> #[trigger] fields@[a].name@ != #[trigger] fields@[b].name@,
            forall|k: int|
                0 <= k < i ==> spec_field_ok(pool, scope@, proto3, &#[trigger] proto.field@[k]),
            oneof_names@.len() == proto.oneof_decl@.len(),
        decreases proto.field@.len() - i,
    {
        let fp = &proto.field[i];
        let entry = match build_field_entry(pool, scope, proto3, fp, i as u32) {
            Ok(e) => e,
            Err(e) => {
                return Err(e);
            },
        };
        proof {
            lemma_resolve_kind_ok(
                pool.names@,
                scope@,
                fp,
                pool.messages@.len(),
                pool.enums@.len(),
            );
        }
        if has_number(&fields, entry.number) {
            proof {
                let j = choose|k: int| 0 <= k < fields@.len() && #[trigger] fields@[k].number
                    == entry.number;
                assert(proto.field@[j].number->0 == proto.field@[i as int].number->0);
            }
            let mut m = "duplicate field number ".to_owned();
            crate::text::push_decimal(&mut m, entry.number as u64);
            m.push_str(" in `");
            m.push_str(scope.as_str());
            m.push('`');
            return Err(DescriptorError::Validation(m));
        }
        if has_name(&fields, &entry.name) {
            proof {
                let j = choose|k: int| 0 <= k < fields@.len() && #[trigger] fields@[k].name@
                    == entry.name@;
                assert(proto.field@[j].name->0@ == proto.field@[i as int].name->0@);
            }
            return Err(DescriptorError::DuplicateType(join_dot(scope.as_str(), entry.name.as_str())));
        }
        match entry.oneof_index {
            Some(x) => {
                if x as usize >= oneof_names.len() {
                    proof {
                        assert(!(proto.field@[i as int].oneof_index matches Some(v)
                            ==> crate::wire::spec_u32_of_int(v as int) < proto.oneof_decl@.len()));
                    }
                    return Err(
                        DescriptorError::InvalidOneofIndex {
                            field: join_dot(scope.as_str(), entry.name.as_str()),
                            index: match fp.oneof_index {
                                Some(v) => v,
                                None => 0,
                            },
                            count: oneof_names.len(),
                        },
                    );
                }
            },
            None => {},
        }
        fields.push(entry);
        i = i + 1;
    }
    let mut oneofs: Vec<OneofEntry> = Vec::new();
    let mut o: usize = 0;
    while o < oneof_names.len()
        invariant
            o <= oneof_names@.len(),
            oneofs@.len() == o,
            fields@.len() == proto.field@.len(),
            forall|k: int|
                0 <= k < o ==> {
                    &&& (#[trigger] oneofs@[k]).name@ == proto.oneof_decl@[k].name->0@
                    &&& oneofs@[k].full_name@ == scope@ + seq!['.'] + oneofs@[k].name@
                    &&& oneofs@[k].proto_index == k
                    &&& oneofs@[k].field_indices@ == oneof_members(fields@, k as u32)
                    &&& oneofs@[k].is_synthetic == spec_synthetic(
                        oneofs@[k].field_indices@,
                        proto.field@,
                    )
                },
        decreases oneof_names@.len() - o,
    {
        let name = oneof_names[o].clone();
        let full_name = join_dot(scope.as_str(), name.as_str());
        let members = members_of(&fields, o as u32);
        let is_synthetic = members.len() == 1 && (members[0] as usize) < proto.field.len()
            && proto.field[members[0] as usize].proto3_optional == Some(true);
        oneofs.push(
            OneofEntry {
                name,
                full_name,
                is_synthetic,
                field_indices: members,
                proto_index: o as u32,
            },
        );
        o = o + 1;
    }
    proof {
        assert forall|a: int, b: int|
            0 <= a < b < proto.field@.len() implies (#[trigger] proto.field@[a]).number->0
                != (#[trigger] proto.field@[b]).number->0 by {
            assert(fields@[a].number != fields@[b].number);
        }
        assert forall|a: int, b: int|
            0 <= a < b < proto.field@.len() implies (#[trigger] proto.field@[a]).name->0@
                != (#[trigger] proto.field@[b]).name->0@ by {
            assert(fields@[a].name@ != fields@[b].name@);
        }
        assert forall|k: int| 0 <= k < proto.field@.len() implies ((
        #[trigger] proto.field@[k]).oneof_index matches Some(v) ==> crate::wire::spec_u32_of_int(
            v as int,
        ) < proto.oneof_decl@.len()) by {
            assert(spec_field_entry_matches(&fields@[k], pool, scope@, proto3, &proto.field@[k], k as u32));
        }
    }
    Ok((fields, oneofs))
}


/// The message descriptor reached from `m` by following `steps` through
/// `nested_type`.
pub open spec fn descend(m: DescriptorProto, steps: Seq<u32>) -> Option<DescriptorProto>
    decreases steps.len(),
{
    if steps.len() == 0 {
        Some(m)
    } else if steps[0] < m.nested_type@.len() {
        descend(m.nested_type@[steps[0] as int], steps.drop_first())
    } else {
        None
    }
}

/// The message descriptor at index path `path` inside `file`: the first
/// step selects a top-level message, each further step a nested one.
pub open spec fn spec_message_proto(file: &FileDescriptorProto, path: Seq<u32>) -> Option<
    DescriptorProto,
> {
    if path.len() == 0 || path[0] >= file.message_type@.len() {
        None
    } else {
        descend(file.message_type@[path[0] as int], path.drop_first())
    }
}

/// Walk `file` along `path` to a message descriptor.
pub fn resolve_message_proto<'a>(file: &'a FileDescriptorProto, path: &Vec<u32>) -> (r: Option<
    &'a DescriptorProto,
>)
    ensures
        r is Some <==> spec_message_proto(file, path@) is Some,
        r is Some ==> *r->0 == spec_message_proto(file, path@)->0,
{
    if path.len() == 0 || path[0] as usize >= file.message_type.len() {
        return None;
    }
    let mut cur: &DescriptorProto = &file.message_type[path[0] as usize];
    let mut k: usize = 1;
    assert(path@.drop_first() =~= path@.skip(1));
    while k < path.len()
        invariant
            1 <= k <= path@.len(),
            spec_message_proto(file, path@) == descend(*cur, path@.skip(k as int)),
        decreases path@.len() - k,
    {
        let step = path[k];
        assert(path@.skip(k as int).drop_first() =~= path@.skip(k + 1));
        assert(path@.skip(k as int)[0] == step);
        if step as usize >= cur.nested_type.len() {
            return None;
        }
        cur = &cur.nested_type[step as usize];
        k = k + 1;
    }
    assert(path@.skip(k as int).len() == 0);
    Some(cur)
}

/// The enum descriptor at index path `path` inside `file`: a path of one
/// step selects a top-level enum; otherwise all but the last step lead to
/// the owning message and the last step selects one of its enums.
pub open spec fn spec_enum_proto(file: &FileDescriptorProto, path: Seq<u32>) -> Option<
    EnumDescriptorProto,
> {
    if path.len() == 0 {
        None
    } else if path.len() == 1 {
        if path[0] < file.enum_type@.len() {
            Some(file.enum_type@[path[0] as int])
        } else {
            None
        }
    } else {
        match spec_message_proto(file, path.drop_last()) {
            Some(m) => if path.last() < m.enum_type@.len() {
                Some(m.enum_type@[path.last() as int])
            } else {
                None
            },
            None => None,
        }
    }
}

/// Walk `file` along `path` to an enum descriptor.
pub fn resolve_enum_proto<'a>(file: &'a FileDescriptorProto, path: &Vec<u32>) -> (r: Option<
    &'a EnumDescriptorProto,
>)
    ensures
        r is Some <==> spec_enum_proto(file, path@) is Some,
        r is Some ==> *r->0 == spec_enum_proto(file, path@)->0,
{
    let n = path.len();
    if n == 0 {
        return None;
    }
    if n == 1 {
        if (path[0] as usize) < file.enum_type.len() {
            return Some(&file.enum_type[path[0] as usize]);
        }
        return None;
    }
    let mut owner_path: Vec<u32> = Vec::new();
    let mut k: usize = 0;
    while k + 1 < n
        invariant
            n == path@.len(),
            n >= 2,
            k + 1 <= n,
            owner_path@ == path@.subrange(0, k as int),
        decreases n - k,
    {
        owner_path.push(path[k]);
        k = k + 1;
    }
    assert(owner_path@ =~= path@.drop_last());
    let last = path[n - 1];
    match resolve_message_proto(file, &owner_path) {
        Some(m) => {
            if (last as usize) < m.enum_type.len() {
                Some(&m.enum_type[last as usize])
            } else {
                None
            }
        },
        None => None,
    }
}

/// The fields of message `idx` of `pool` can be resolved: its descriptor
/// is found at its recorded path and its fields resolve.
pub open spec fn message_resolvable(pool: &PoolInner, idx: int) -> bool {
    let m = pool.messages@[idx];
    let file = pool.files@[m.file as int];
    &&& spec_message_proto(&file.proto, m.proto_path@) is Some
    &&& fields_resolvable(
        pool,
        m.full_name@,
        file.syntax@ == proto3_chars(),
        &spec_message_proto(&file.proto, m.proto_path@)->0,
    )
}

/// Whether a message resolves depends on the pool's names, enums and
/// files and on the message's own entry only.
proof fn lemma_resolvable_frame(p1: &PoolInner, p2: &PoolInner, k: int)
    requires
        p1.names@ == p2.names@,
        p1.enums@ == p2.enums@,
        p1.files@ == p2.files@,
        p1.messages@[k] == p2.messages@[k],
    ensures
        message_resolvable(p1, k) == message_resolvable(p2, k),
{
    assert forall|s: Seq<char>, proto3: bool, f: FieldDescriptorProto|
        spec_field_ok(p1, s, proto3, &f) == #[trigger] spec_field_ok(p2, s, proto3, &f) by {
        assert forall|kind: KindRef| default_enum_values(p1, kind) == #[trigger] default_enum_values(
            p2,
            kind,
        ) by {}
    }
}

/// Resolve the fields and oneofs of message `idx` in place.
pub fn resolve_message(pool: &mut PoolInner, idx: u32) -> (r: Result<(), DescriptorError>)
    requires
        old(pool).wf(),
        idx < old(pool).messages@.len(),
    ensures
        final(pool).wf(),
        final(pool).files@ == old(pool).files@,
        final(pool).file_names@ == old(pool).file_names@,
        final(pool).services@ == old(pool).services@,
        final(pool).service_names@ == old(pool).service_names@,
        final(pool).names@ == old(pool).names@,
        final(pool).enums@ == old(pool).enums@,
        final(pool).messages@.len() == old(pool).messages@.len(),
        forall|k: int|
            0 <= k < old(pool).messages@.len() && k != idx ==> #[trigger] final(pool).messages@[k]
                == old(pool).messages@[k],
        r is Err ==> final(pool).messages@ == old(pool).messages@,
        r is Ok <==> message_resolvable(old(pool), idx as int),
        r is Ok ==> ({
            let m = old(pool).messages@[idx as int];
            let n = final(pool).messages@[idx as int];
            let file = old(pool).files@[m.file as int];
            &&& spec_message_proto(&file.proto, m.proto_path@) is Some
            &&& fields_resolved(
                old(pool),
                m.full_name@,
                file.syntax@ == proto3_chars(),
                &spec_message_proto(&file.proto, m.proto_path@)->0,
                n.fields@,
                n.oneofs@,
            )
            &&& n.full_name == m.full_name
            &&& n.name == m.name
            &&& n.file == m.file
            &&& n.parent == m.parent
            &&& n.proto_path == m.proto_path
            &&& n.nested_messages == m.nested_messages
            &&& n.nested_enums == m.nested_enums
            &&& n.is_map_entry == m.is_map_entry
        }),
{
    let ghost p0 = *pool;
    let file_index = pool.messages[idx as usize].file;
    assert(pool.messages@[idx as int].wf_in(
        pool.files@.len(),
        pool.messages@.len(),
        pool.enums@.len(),
    ));
    let resolved = {
        let file = &pool.files[file_index as usize];
        let entry = &pool.messages[idx as usize];
        match resolve_message_proto(&file.proto, &entry.proto_path) {
            None => {
                let mut m = "message `".to_owned();
                m.push_str(entry.full_name.as_str());
                m.push_str("` has no descriptor at its recorded path");
                Err(DescriptorError::Validation(m))
            },
            Some(proto) => {
                let proto3 = is_proto3(file.syntax.as_str());
                resolve_fields(pool, &entry.full_name, proto3, proto)
            },
        }
    };
    let (fields, oneofs) = match resolved {
        Ok(v) => v,
        Err(e) => {
            return Err(e);
        },
    };
    pool.messages[idx as usize].fields = fields;
    pool.messages[idx as usize].oneofs = oneofs;
    proof {
        let n = pool.messages@[idx as int];
        assert(pool.messages@ =~= p0.messages@.update(idx as int, n));
        assert forall|k: int| 0 <= k < pool.messages@.len() implies (#[trigger] pool.messages@[k]).wf_in(
            pool.files@.len(),
            pool.messages@.len(),
            pool.enums@.len(),
        ) by {
            if k != idx {
                assert(p0.messages@[k].wf_in(
                    p0.files@.len(),
                    p0.messages@.len(),
                    p0.enums@.len(),
                ));
            } else {
                let fs = n.fields@;
                let os = n.oneofs@;
                let m = p0.messages@[idx as int];
                assert(m.wf_in(p0.files@.len(), p0.messages@.len(), p0.enums@.len()));
                assert(n.file == m.file);
                assert(n.parent == m.parent);
                assert(n.nested_messages == m.nested_messages);
                assert(fs.len() <= u32::MAX);
                assert(os.len() <= u32::MAX);
                assert(forall|i: int|
                    0 <= i < fs.len() ==> kind_ok(
                        #[trigger] fs[i].kind,
                        pool.messages@.len(),
                        pool.enums@.len(),
                    ) && (fs[i].oneof_index matches Some(o) ==> o < os.len()));
                assert forall|o: int, j: int|
                    0 <= o < os.len() && 0 <= j < os[o].field_indices@.len() implies #[trigger] os[o].field_indices@[j]
                    < fs.len() by {
                    lemma_oneof_members_bound(fs, o as u32);
                    assert(os[o].field_indices@ == oneof_members(fs, o as u32));
                }
            }
        }
        assert forall|k: int| 0 <= k < pool.files@.len() implies (#[trigger] pool.files@[k]).wf_in(
            pool.messages@.len(),
            pool.enums@.len(),
            pool.services@.len(),
        ) by {
            assert(p0.files@[k].wf_in(
                p0.messages@.len(),
                p0.enums@.len(),
                p0.services@.len(),
            ));
        }
        assert forall|k: int| 0 <= k < pool.enums@.len() implies (#[trigger] pool.enums@[k]).wf_in(
            pool.files@.len(),
            pool.messages@.len(),
        ) by {
            assert(p0.enums@[k].wf_in(p0.files@.len(), p0.messages@.len()));
        }
        assert forall|k: int| 0 <= k < pool.services@.len() implies (#[trigger] pool.services@[k]).wf_in(
            pool.files@.len(),
            pool.messages@.len(),
        ) by {
            assert(p0.services@[k].wf_in(p0.files@.len(), p0.messages@.len()));
        }
    }
    Ok(())
}


/// A proto3 enum must declare a value numbered zero.
pub open spec fn spec_enum_ok(pool: &PoolInner, e: int) -> bool {
    let entry = pool.enums@[e];
    pool.files@[entry.file as int].syntax@ == proto3_chars() ==> exists|k: int|
        0 <= k < entry.values@.len() && #[trigger] entry.values@[k].number == 0
}

/// Check the proto3 rule for enum `idx`.
pub fn validate_enum(pool: &PoolInner, idx: u32) -> (r: Result<(), DescriptorError>)
    requires
        pool.wf(),
        idx < pool.enums@.len(),
    ensures
        r is Ok <==> spec_enum_ok(pool, idx as int),
        r is Err ==> (r matches Err(DescriptorError::Proto3EnumMissingZero(n)) && n@
            == pool.enums@[idx as int].full_name@),
{
    let entry = &pool.enums[idx as usize];
    assert(entry.wf_in(pool.files@.len(), pool.messages@.len()));
    if is_proto3(pool.files[entry.file as usize].syntax.as_str()) {
        let mut k: usize = 0;
        while k < entry.values.len()
            invariant
                k <= entry.values@.len(),
                *entry == pool.enums@[idx as int],
                idx < pool.enums@.len(),
                forall|j: int| 0 <= j < k ==> #[trigger] entry.values@[j].number != 0,
            decreases entry.values@.len() - k,
        {
            if entry.values[k].number == 0 {
                proof {
                    let kk = k as int;
                    assert(pool.enums@[idx as int].values@[kk].number == 0);
                    assert(exists|j: int|
                        0 <= j < pool.enums@[idx as int].values@.len()
                            && #[trigger] pool.enums@[idx as int].values@[j].number == 0);
                }
                return Ok(());
            }
            k = k + 1;
        }
        return Err(DescriptorError::Proto3EnumMissingZero(entry.full_name.clone()));
    }
    Ok(())
}

// ── services ────────────────────────────────────────────────────────────

/// The message a method's input or output type names, looked up from the
/// service's scope.
pub open spec fn spec_method_type(
    pool: &PoolInner,
    scope: Seq<char>,
    t: Option<String>,
) -> Option<u32> {
    match t {
        Some(tn) => match spec_resolve_type_name(pool.names@, scope, tn@) {
            Some(Definition::Message(m)) => Some(m),
            _ => None,
        },
        None => None,
    }
}

fn method_type(pool: &PoolInner, scope: &String, method_full: &String, t: &Option<String>) -> (r:
    Result<u32, DescriptorError>)
    requires
        pool.wf(),
    ensures
        r is Ok <==> spec_method_type(pool, scope@, *t) is Some,
        r is Ok ==> Some(r->Ok_0) == spec_method_type(pool, scope@, *t),
        r is Ok ==> r->Ok_0 < pool.messages@.len(),
{
    let raw = match t {
        Some(tn) => tn,
        None => {
            return Err(
                DescriptorError::MissingTypeName {
                    field: method_full.clone(),
                    kind: "TYPE_MESSAGE".to_owned(),
                },
            );
        },
    };
    proof {
        lemma_relative_def_ok(
            pool.names@,
            scope@,
            raw@,
            pool.messages@.len(),
            pool.enums@.len(),
        );
        if raw@.len() > 0 {
            lemma_table_def_ok(
                pool.names@,
                raw@.drop_first(),
                pool.messages@.len(),
                pool.enums@.len(),
            );
        }
    }
    match resolve_type_name(pool, scope.as_str(), raw.as_str()) {
        Some(Definition::Message(m)) => Ok(m),
        Some(Definition::Enum(_)) => {
            let mut msg = "method `".to_owned();
            msg.push_str(method_full.as_str());
            msg.push_str("` expected a message but `");
            msg.push_str(raw.as_str());
            msg.push_str("` resolved to a different kind");
            Err(DescriptorError::Validation(msg))
        },
        None => Err(
            DescriptorError::UnresolvedType { field: method_full.clone(), referenced: raw.clone() },
        ),
    }
}

/// The entry a method descriptor yields inside service `scope`.
pub open spec fn spec_method_matches(
    e: MethodEntry,
    pool: &PoolInner,
    scope: Seq<char>,
    m: &MethodDescriptorProto,
    pos: u32,
) -> bool {
    &&& m.name is Some
    &&& e.name@ == m.name->0@
    &&& e.full_name@ == scope + seq!['.'] + m.name->0@
    &&& Some(e.input) == spec_method_type(pool, scope, m.input_type)
    &&& Some(e.output) == spec_method_type(pool, scope, m.output_type)
    &&& e.is_client_streaming == (m.client_streaming == Some(true))
    &&& e.is_server_streaming == (m.server_streaming == Some(true))
    &&& e.proto_index == pos
}

/// Service descriptor `proto`, declared in `package`, can be built
/// against `pool`: it is named, its method count fits, and every method is
/// named and has input and output types that name messages of the pool.
pub open spec fn service_buildable(pool: &PoolInner, proto: &ServiceDescriptorProto, package: Seq<char>) -> bool {
    &&& proto.name is Some
    &&& proto.method@.len() <= 0xffff_ffff
    &&& forall|k: int|
        0 <= k < proto.method@.len() ==> (#[trigger] proto.method@[k]).name is Some && spec_method_type(
            pool,
            spec_join(package, proto.name->0@),
            proto.method@[k].input_type,
        ) is Some && spec_method_type(
            pool,
            spec_join(package, proto.name->0@),
            proto.method@[k].output_type,
        ) is Some
}

/// Build the entry of a service declared in `package`; its methods'
/// types must name messages of the pool.
#[verifier::loop_isolation(false)]
pub fn build_service(
    pool: &PoolInner,
    proto: &ServiceDescriptorProto,
    package: &String,
    file: u32,
    proto_index: u32,
) -> (r: Result<ServiceEntry, DescriptorError>)
    requires
        pool.wf(),
    ensures
        proto.name is None ==> (r matches Err(DescriptorError::MissingName { .. })),
        r is Ok <==> service_buildable(pool, proto, package@),
        r is Ok ==> ({
            let e = r->Ok_0;
            let full = spec_join(package@, proto.name->0@);
            &&& proto.name is Some
            &&& e.full_name@ == full
            &&& e.name@ == proto.name->0@
            &&& e.file == file
            &&& e.proto_index == proto_index
            &&& e.methods@.len() == proto.method@.len()
            &&& e.methods@.len() <= u32::MAX
            &&& forall|k: int|
                0 <= k < e.methods@.len() ==> spec_method_matches(
                    #[trigger] e.methods@[k],
                    pool,
                    full,
                    &proto.method@[k],
                    k as u32,
                ) && e.methods@[k].input < pool.messages@.len() && e.methods@[k].output
                    < pool.messages@.len()
        }),
{
    let name = match &proto.name {
        Some(n) => n.clone(),
        None => {
            return Err(missing_name(package.as_str()));
        },
    };
    let full_name = join(package.as_str(), name.as_str());
    if proto.method.len() > 0xffff_ffff {
        return Err(DescriptorError::Validation("too many methods in service".to_owned()));
    }
    let mut methods: Vec<MethodEntry> = Vec::new();
    let mut k: usize = 0;
    while k < proto.method.len()
        invariant
            k <= proto.method@.len(),
            methods@.len() == k,
            forall|j: int|
                0 <= j < k ==> spec_method_matches(
                    #[trigger] methods@[j],
                    pool,
                    full_name@,
                    &proto.method@[j],
                    j as u32,
                ) && methods@[j].input < pool.messages@.len() && methods@[j].output
                    < pool.messages@.len(),
        decreases proto.method@.len() - k,
    {
        let m = &proto.method[k];
        let mname = match &m.name {
            Some(n) => n.clone(),
            None => {
                return Err(missing_name(full_name.as_str()));
            },
        };
        let mfull = join_dot(full_name.as_str(), mname.as_str());
        let input = match method_type(pool, &full_name, &mfull, &m.input_type) {
            Ok(i) => i,
            Err(e) => {
                return Err(e);
            },
        };
        let output = match method_type(pool, &full_name, &mfull, &m.output_type) {
            Ok(o) => o,
            Err(e) => {
                return Err(e);
            },
        };
        methods.push(
            MethodEntry {
                name: mname,
                full_name: mfull,
                input,
                output,
                is_client_streaming: m.client_streaming == Some(true),
                is_server_streaming: m.server_streaming == Some(true),
                proto_index: k as u32,
            },
        );
        k = k + 1;
    }
    proof {
        assert forall|q: int| 0 <= q < proto.method@.len() implies (
        #[trigger] proto.method@[q]).name is Some && spec_method_type(
            pool,
            spec_join(package@, proto.name->0@),
            proto.method@[q].input_type,
        ) is Some && spec_method_type(
            pool,
            spec_join(package@, proto.name->0@),
            proto.method@[q].output_type,
        ) is Some by {
            assert(spec_method_matches(methods@[q], pool, full_name@, &proto.method@[q], q as u32));
        }
    }
    Ok(ServiceEntry { full_name, name, file, proto_index, methods })
}


// ── whole descriptor sets ───────────────────────────────────────────────

/// `b` keeps every entry of `a` in place and may add entries at the end
/// of each table.
pub open spec fn grows(a: &PoolInner, b: &PoolInner) -> bool {
    &&& a.files@.len() <= b.files@.len()
    &&& b.files@.take(a.files@.len() as int) == a.files@
    &&& a.file_names@.len() <= b.file_names@.len()
    &&& b.file_names@.take(a.file_names@.len() as int) == a.file_names@
    &&& a.services@.len() <= b.services@.len()
    &&& b.services@.take(a.services@.len() as int) == a.services@
    &&& a.service_names@.len() <= b.service_names@.len()
    &&& b.service_names@.take(a.service_names@.len() as int) == a.service_names@
    &&& a.messages@.len() <= b.messages@.len()
    &&& b.messages@.take(a.messages@.len() as int) == a.messages@
    &&& a.enums@.len() <= b.enums@.len()
    &&& b.enums@.take(a.enums@.len() as int) == a.enums@
    &&& a.names@.len() <= b.names@.len()
    &&& b.names@.take(a.names@.len() as int) == a.names@
}

/// The two pools hold the same entries.
pub open spec fn same_contents(a: &PoolInner, b: &PoolInner) -> bool {
    &&& b.files@ == a.files@
    &&& b.file_names@ == a.file_names@
    &&& b.services@ == a.services@
    &&& b.service_names@ == a.service_names@
    &&& b.messages@ == a.messages@
    &&& b.enums@ == a.enums@
    &&& b.names@ == a.names@
}

proof fn lemma_grows_refl(a: &PoolInner)
    ensures
        grows(a, a),
{
    assert(a.files@.take(a.files@.len() as int) =~= a.files@);
    assert(a.file_names@.take(a.file_names@.len() as int) =~= a.file_names@);
    assert(a.services@.take(a.services@.len() as int) =~= a.services@);
    assert(a.service_names@.take(a.service_names@.len() as int) =~= a.service_names@);
    assert(a.messages@.take(a.messages@.len() as int) =~= a.messages@);
    assert(a.enums@.take(a.enums@.len() as int) =~= a.enums@);
    assert(a.names@.take(a.names@.len() as int) =~= a.names@);
}

proof fn lemma_grows_trans(a: &PoolInner, b: &PoolInner, c: &PoolInner)
    requires
        grows(a, b),
        grows(b, c),
    ensures
        grows(a, c),
{
    assert(c.files@.take(a.files@.len() as int) =~= b.files@.take(a.files@.len() as int));
    assert(c.file_names@.take(a.file_names@.len() as int) =~= b.file_names@.take(
        a.file_names@.len() as int,
    ));
    assert(c.services@.take(a.services@.len() as int) =~= b.services@.take(
        a.services@.len() as int,
    ));
    assert(c.service_names@.take(a.service_names@.len() as int) =~= b.service_names@.take(
        a.service_names@.len() as int,
    ));
    assert(c.messages@.take(a.messages@.len() as int) =~= b.messages@.take(
        a.messages@.len() as int,
    ));
    assert(c.enums@.take(a.enums@.len() as int) =~= b.enums@.take(a.enums@.len() as int));
    assert(c.names@.take(a.names@.len() as int) =~= b.names@.take(a.names@.len() as int));
}

proof fn lemma_extends_grows(a: &PoolInner, b: &PoolInner)
    requires
        extends(a, b),
    ensures
        grows(a, b),
{
    assert(b.files@.take(a.files@.len() as int) =~= a.files@);
    assert(b.file_names@.take(a.file_names@.len() as int) =~= a.file_names@);
    assert(b.services@.take(a.services@.len() as int) =~= a.services@);
    assert(b.service_names@.take(a.service_names@.len() as int) =~= a.service_names@);
}

proof fn lemma_wf_pending_weaken(p: &PoolInner, a: nat, b: nat)
    requires
        p.wf_pending(a),
        a <= b,
        p.files@.len() + b <= u32::MAX,
    ensures
        p.wf_pending(b),
{
    let nf = p.files@.len();
    assert forall|k: int| 0 <= k < p.messages@.len() implies (#[trigger] p.messages@[k]).wf_in(
        nf + b,
        p.messages@.len(),
        p.enums@.len(),
    ) by {
        assert(p.messages@[k].wf_in(nf + a, p.messages@.len(), p.enums@.len()));
    }
    assert forall|k: int| 0 <= k < p.enums@.len() implies (#[trigger] p.enums@[k]).wf_in(
        nf + b,
        p.messages@.len(),
    ) by {
        assert(p.enums@[k].wf_in(nf + a, p.messages@.len()));
    }
}

/// The file names registered in `pool`.
pub open spec fn file_names_in_use(pool: &PoolInner) -> Set<Seq<char>> {
    Set::new(|x: Seq<char>| table_get(pool.file_names@, x) is Some)
}

/// The scope of a file's top-level declarations: its package, if any.
pub open spec fn file_scope(fp: FileDescriptorProto) -> Seq<char> {
    match fp.package {
        Some(p) => p@,
        None => seq![],
    }
}

/// Registering the messages `ms` from the `i`-th on under `scope` (see
/// [`msg_reg`]).
pub open spec fn msgs_reg(
    ms: Seq<DescriptorProto>,
    scope: Seq<char>,
    i: int,
    taken: Set<Seq<char>>,
    nm: nat,
    ne: nat,
) -> Option<(Set<Seq<char>>, nat, nat)>
    decreases ms.len() - i,
{
    if i < 0 || i >= ms.len() {
        Some((taken, nm, ne))
    } else {
        match msg_reg(ms[i], scope, taken, nm, ne) {
            None => None,
            Some((t, m, e)) => msgs_reg(ms, scope, i + 1, t, m, e),
        }
    }
}

/// Registering file `fp` as file number `nf`, with `file_taken` file
/// names, `taken` type names, `nm` messages and `ne` enums so far: it is
/// named, its name is free, the counts fit, and its messages then its
/// enums register. The type names in use and the counts afterwards, or
/// `None` where it fails.
pub open spec fn file_reg(
    fp: FileDescriptorProto,
    file_taken: Set<Seq<char>>,
    nf: nat,
    taken: Set<Seq<char>>,
    nm: nat,
    ne: nat,
) -> Option<(Set<Seq<char>>, nat, nat)> {
    match fp.name {
        None => None,
        Some(n) => if file_taken.contains(n@) || nf >= 0xffff_fffe || fp.message_type@.len()
            > 0xffff_ffff || fp.enum_type@.len() > 0xffff_ffff {
            None
        } else {
            match msgs_reg(fp.message_type@, file_scope(fp), 0, taken, nm, ne) {
                None => None,
                Some((t, m, e)) => enums_reg(fp.enum_type@, file_scope(fp), 0, t, m, e),
            }
        },
    }
}

/// Every file of `files` from the `i`-th on registers, in order (see
/// [`file_reg`]).
pub open spec fn files_reg(
    files: Seq<FileDescriptorProto>,
    i: int,
    file_taken: Set<Seq<char>>,
    nf: nat,
    taken: Set<Seq<char>>,
    nm: nat,
    ne: nat,
) -> bool
    decreases files.len() - i,
{
    if i < 0 || i >= files.len() {
        true
    } else {
        match file_reg(files[i], file_taken, nf, taken, nm, ne) {
            None => false,
            Some((t, m, e)) => files_reg(
                files,
                i + 1,
                file_taken.insert(files[i].name->0@),
                nf + 1,
                t,
                m,
                e,
            ),
        }
    }
}

/// The files of a set can all be registered in `pool`: each is named, no
/// file name and no type name is taken twice (in the pool or in the set),
/// and every message and enum is named (the first pass of ingestion).
pub open spec fn set_registrable(pool: &PoolInner, files: Seq<FileDescriptorProto>) -> bool {
    files_reg(
        files,
        0,
        file_names_in_use(pool),
        pool.files@.len(),
        names_in_use(pool),
        pool.messages@.len(),
        pool.enums@.len(),
    )
}

/// A field declaration of the accepted shape: named, validly numbered,
/// not `required` in a proto3 file, and with no default value unless it
/// is repeated or a scalar whose default literal parses.
pub open spec fn plain_field(p: FieldDescriptorProto, proto3: bool) -> bool {
    &&& p.name is Some
    &&& p.number is Some
    &&& field_number_valid(p.number->0 as int)
    &&& !(proto3 && spec_cardinality(p.label) == Cardinality::Required)
    &&& (p.default_value matches Some(raw) ==> spec_cardinality(p.label) == Cardinality::Repeated || {
        &&& p.field_type is Some
        &&& spec_scalar_kind(p.field_type->0) is Some
        &&& crate::defaults::spec_default(raw@, spec_scalar_kind(p.field_type->0)->0, None) is Some
    })
}

/// The file declares `syntax = "proto3"`.
pub open spec fn file_is_proto3(fp: FileDescriptorProto) -> bool {
    fp.syntax matches Some(s) && s@ == proto3_chars()
}

/// A message declaration of plain fields with distinct names and numbers,
/// named oneofs that its fields index within bounds, and (in a proto3
/// file) enums each of which has a value numbered 0.
pub open spec fn plain_message(m: DescriptorProto, proto3: bool) -> bool {
    &&& m.field@.len() <= 0xffff_ffff
    &&& m.oneof_decl@.len() <= 0x7fff_ffff
    &&& forall|k: int| 0 <= k < m.oneof_decl@.len() ==> (#[trigger] m.oneof_decl@[k]).name is Some
    &&& proto3 ==> forall|j: int| 0 <= j < m.enum_type@.len() ==> has_zero(#[trigger] m.enum_type@[j])
    &&& forall|k: int| 0 <= k < m.field@.len() ==> plain_field(#[trigger] m.field@[k], proto3)
    &&& forall|a: int, b: int|
        0 <= a < b < m.field@.len() ==> (#[trigger] m.field@[a]).number->0
            != (#[trigger] m.field@[b]).number->0
    &&& forall|a: int, b: int|
        0 <= a < b < m.field@.len() ==> (#[trigger] m.field@[a]).name->0@
            != (#[trigger] m.field@[b]).name->0@
    &&& forall|k: int|
        0 <= k < m.field@.len() ==> ((#[trigger] m.field@[k]).oneof_index matches Some(i)
            ==> crate::wire::spec_u32_of_int(i as int) < m.oneof_decl@.len())
}

/// `x` is the full name of a message declared (at any depth) in one of
/// `files`.
pub open spec fn set_declares_message(files: Seq<FileDescriptorProto>, x: Seq<char>) -> bool {
    exists|i: int, m: int, q: Seq<u32>|
        0 <= i < files.len() && 0 <= m < files[i].message_type@.len() && #[trigger] descend(
            files[i].message_type@[m],
            q,
        ) is Some && desc_name(files[i].message_type@[m], file_scope(files[i]), q) == x
}

/// `x` is the full name of an enum declared (at the top or inside a
/// message) in one of `files`.
pub open spec fn set_declares_enum(files: Seq<FileDescriptorProto>, x: Seq<char>) -> bool {
    ||| exists|i: int, j: int|
        0 <= i < files.len() && 0 <= j < files[i].enum_type@.len() && spec_join(
            file_scope(files[i]),
            (#[trigger] files[i].enum_type@[j]).name->0@,
        ) == x
    ||| exists|i: int, m: int, q: Seq<u32>, j: int|
        0 <= i < files.len() && 0 <= m < files[i].message_type@.len() && descend(
            files[i].message_type@[m],
            q,
        ) is Some && 0 <= j < descend(files[i].message_type@[m], q)->0.enum_type@.len() && spec_join(
            desc_name(files[i].message_type@[m], file_scope(files[i]), q),
            (#[trigger] descend(files[i].message_type@[m], q)->0.enum_type@[j]).name->0@,
        ) == x
}

/// `x` is bound in `names` or declared, as a message or an enum, by one
/// of `files`.
pub open spec fn set_knows(
    names: Seq<(String, Definition)>,
    files: Seq<FileDescriptorProto>,
    x: Seq<char>,
) -> bool {
    table_get(names, x) is Some || set_declares_message(files, x) || set_declares_enum(files, x)
}

/// The full name that a relative reference `name` made in `scope` picks
/// once the names of `files` join `names`: `scope.name` if that is known,
/// otherwise the same search from the enclosing scope, outward.
pub open spec fn set_relative_target(
    names: Seq<(String, Definition)>,
    files: Seq<FileDescriptorProto>,
    scope: Seq<char>,
    name: Seq<char>,
) -> Option<Seq<char>>
    decreases scope.len(),
{
    if set_knows(names, files, spec_join(scope, name)) {
        Some(spec_join(scope, name))
    } else if scope.len() == 0 {
        None
    } else {
        proof {
            lemma_last_dot(scope);
        }
        set_relative_target(names, files, parent_scope(scope), name)
    }
}

/// The full name field `f`, declared in message `scope`, refers to.
pub open spec fn field_target_name(
    names: Seq<(String, Definition)>,
    files: Seq<FileDescriptorProto>,
    scope: Seq<char>,
    f: FieldDescriptorProto,
) -> Seq<char> {
    let tn = f.type_path->0@;
    if tn.len() > 0 && tn[0] == '.' {
        tn.drop_first()
    } else {
        set_relative_target(names, files, scope, tn)->0
    }
}

/// The type of field `f`, declared in message `scope`, is a scalar, or a
/// reference (absolute, or relative and then searched from `scope`
/// outward) to a message (for message and group fields), an enum (for
/// enum fields), or either (when the type is left open) that `files`
/// declare or `names` already binds.
pub open spec fn field_target_ok(
    names: Seq<(String, Definition)>,
    files: Seq<FileDescriptorProto>,
    scope: Seq<char>,
    f: FieldDescriptorProto,
) -> bool {
    ||| f.field_type is Some && spec_scalar_kind(f.field_type->0) is Some
    ||| {
        &&& f.type_path is Some
        &&& (if f.type_path->0@.len() > 0 && f.type_path->0@[0] == '.' {
            true
        } else {
            set_relative_target(names, files, scope, f.type_path->0@) is Some
        })
        &&& if f.field_type == Some(Type::TypeEnum) {
            set_declares_enum(files, field_target_name(names, files, scope, f)) || binds_enum(
                names,
                field_target_name(names, files, scope, f),
            )
        } else if f.field_type is None {
            set_knows(names, files, field_target_name(names, files, scope, f))
        } else {
            set_declares_message(files, field_target_name(names, files, scope, f))
                || binds_message(names, field_target_name(names, files, scope, f))
        }
    }
}

/// Message declaration `m`, in a file of the given syntax, has the shape
/// every accepted message has: its fields are named and validly numbered,
/// none is `required` in proto3, no two share a number or a name, its
/// oneofs are named and its fields index them within bounds.
pub open spec fn decl_shape_ok(m: DescriptorProto, proto3: bool) -> bool {
    &&& m.field@.len() <= 0xffff_ffff
    &&& m.oneof_decl@.len() <= 0x7fff_ffff
    &&& forall|k: int| 0 <= k < m.oneof_decl@.len() ==> (#[trigger] m.oneof_decl@[k]).name is Some
    &&& forall|k: int|
        0 <= k < m.field@.len() ==> {
            &&& (#[trigger] m.field@[k]).name is Some
            &&& m.field@[k].number is Some
            &&& field_number_valid(m.field@[k].number->0 as int)
            &&& !(proto3 && spec_cardinality(m.field@[k].label) == Cardinality::Required)
        }
    &&& forall|a: int, b: int|
        0 <= a < b < m.field@.len() ==> (#[trigger] m.field@[a]).number->0
            != (#[trigger] m.field@[b]).number->0
    &&& forall|a: int, b: int|
        0 <= a < b < m.field@.len() ==> (#[trigger] m.field@[a]).name->0@
            != (#[trigger] m.field@[b]).name->0@
    &&& forall|k: int|
        0 <= k < m.field@.len() ==> ((#[trigger] m.field@[k]).oneof_index matches Some(i)
            ==> crate::wire::spec_u32_of_int(i as int) < m.oneof_decl@.len())
}

/// Every message declaration of `files` has the accepted shape.
pub open spec fn set_shapes_ok(files: Seq<FileDescriptorProto>) -> bool {
    forall|i: int, path: Seq<u32>|
        0 <= i < files.len() && #[trigger] spec_message_proto(&files[i], path) is Some
            ==> decl_shape_ok(spec_message_proto(&files[i], path)->0, file_is_proto3(files[i]))
}

/// Every field of every message that `files` declare has a type that
/// resolves (see [`field_target_ok`]) against `names` and the set itself.
pub open spec fn set_targets_resolve(
    names: Seq<(String, Definition)>,
    files: Seq<FileDescriptorProto>,
) -> bool {
    forall|i: int, path: Seq<u32>, k: int|
        0 <= i < files.len() && spec_message_proto(&files[i], path) is Some && 0 <= k
            < spec_message_proto(&files[i], path)->0.field@.len() ==> field_target_ok(
            names,
            files,
            msg_scope(files[i], path),
            #[trigger] spec_message_proto(&files[i], path)->0.field@[k],
        )
}

/// A file whose messages, at every depth, are plain under its syntax, and
/// each of whose top-level enums has a value numbered 0 if it is proto3.
pub open spec fn plain_file(fp: FileDescriptorProto) -> bool {
    &&& file_is_proto3(fp) ==> forall|j: int|
        0 <= j < fp.enum_type@.len() ==> has_zero(#[trigger] fp.enum_type@[j])
    &&& forall|path: Seq<u32>|
        #[trigger] spec_message_proto(&fp, path) is Some ==> plain_message(
            spec_message_proto(&fp, path)->0,
            file_is_proto3(fp),
        )
}

/// Message entry `e` was registered from the declaration at its index
/// path in file `e.file` of the pool, the `(e.file - n0)`-th of `files`,
/// and carries that declaration's full name.
pub open spec fn msg_from_set(e: MessageEntry, files: Seq<FileDescriptorProto>, n0: int) -> bool {
    &&& n0 <= e.file < n0 + files.len()
    &&& spec_message_proto(&files[e.file - n0], e.proto_path@) is Some
    &&& e.full_name@ == msg_scope(files[e.file - n0], e.proto_path@)
}

/// The full name of the message declaration at index path `path` in
/// file `fp`.
pub open spec fn msg_scope(fp: FileDescriptorProto, path: Seq<u32>) -> Seq<char> {
    desc_name(fp.message_type@[path[0] as int], file_scope(fp), path.drop_first())
}

/// What the set declares, and what `names` binds, the pool binds with
/// the same kind, when the pool binds every declaration of the set and
/// extends `names`.
proof fn lemma_declared_bound(
    pool: &PoolInner,
    names: Seq<(String, Definition)>,
    files: Seq<FileDescriptorProto>,
    x: Seq<char>,
)
    requires
        forall|i: int| 0 <= i < files.len() ==> file_names_bound(pool.names@, #[trigger] files[i]),
        names.len() <= pool.names@.len(),
        pool.names@.take(names.len() as int) == names,
    ensures
        (set_declares_enum(files, x) || binds_enum(names, x)) ==> binds_enum(pool.names@, x),
        (set_declares_message(files, x) || binds_message(names, x)) ==> binds_message(pool.names@, x),
{
    if binds_enum(names, x) || binds_message(names, x) {
        lemma_table_prefix(names, pool.names@, x);
    }
    if set_declares_enum(files, x) {
        if exists|i: int, j: int|
            0 <= i < files.len() && 0 <= j < files[i].enum_type@.len() && spec_join(
                file_scope(files[i]),
                (#[trigger] files[i].enum_type@[j]).name->0@,
            ) == x {
            let (i, j) = choose|i: int, j: int|
                0 <= i < files.len() && 0 <= j < files[i].enum_type@.len() && spec_join(
                    file_scope(files[i]),
                    (#[trigger] files[i].enum_type@[j]).name->0@,
                ) == x;
            assert(file_names_bound(pool.names@, files[i]));
            assert(binds_enum(pool.names@, x));
        } else {
            let (i, mm, q, j) = choose|i: int, mm: int, q: Seq<u32>, j: int|
                0 <= i < files.len() && 0 <= mm < files[i].message_type@.len() && descend(
                    files[i].message_type@[mm],
                    q,
                ) is Some && 0 <= j < descend(files[i].message_type@[mm], q)->0.enum_type@.len()
                    && spec_join(
                    desc_name(files[i].message_type@[mm], file_scope(files[i]), q),
                    (#[trigger] descend(files[i].message_type@[mm], q)->0.enum_type@[j]).name->0@,
                ) == x;
            assert(file_names_bound(pool.names@, files[i]));
            assert(names_bound(pool.names@, files[i].message_type@[mm], file_scope(files[i])));
            assert(binds_enum(pool.names@, x));
        }
    }
    if set_declares_message(files, x) {
        let (i, mm, q) = choose|i: int, mm: int, q: Seq<u32>|
            0 <= i < files.len() && 0 <= mm < files[i].message_type@.len() && #[trigger] descend(
                files[i].message_type@[mm],
                q,
            ) is Some && desc_name(files[i].message_type@[mm], file_scope(files[i]), q) == x;
        assert(file_names_bound(pool.names@, files[i]));
        assert(names_bound(pool.names@, files[i].message_type@[mm], file_scope(files[i])));
        assert(binds_message(pool.names@, x));
    }
}

/// In a pool that binds every declaration of the set, extends `names`,
/// and binds nothing else, a name is bound exactly when `names` binds it
/// or the set declares it.
proof fn lemma_knows_registered(
    pool: &PoolInner,
    names: Seq<(String, Definition)>,
    files: Seq<FileDescriptorProto>,
    x: Seq<char>,
)
    requires
        forall|i: int| 0 <= i < files.len() ==> file_names_bound(pool.names@, #[trigger] files[i]),
        names.len() <= pool.names@.len(),
        pool.names@.take(names.len() as int) == names,
        forall|k: int|
            names.len() <= k < pool.names@.len() ==> name_from_set(#[trigger] pool.names@[k], files),
    ensures
        set_knows(names, files, x) <==> table_get(pool.names@, x) is Some,
        binds_message(pool.names@, x) ==> binds_message(names, x) || set_declares_message(files, x),
        binds_enum(pool.names@, x) ==> binds_enum(names, x) || set_declares_enum(files, x),
{
    lemma_declared_bound(pool, names, files, x);
    if table_get(names, x) is Some {
        lemma_table_prefix(names, pool.names@, x);
    }
    lemma_table_get_some(pool.names@, x);
    lemma_table_get_some(names, x);
    if table_get(pool.names@, x) is Some {
        let k = choose|k: int|
            0 <= k < pool.names@.len() && pool.names@[k].0@ == x && pool.names@[k].1 == table_get(
                pool.names@,
                x,
            )->0;
        if table_get(names, x) is Some {
        } else if k < names.len() {
            assert(names[k] == pool.names@[k]);
        } else {
            let e = pool.names@[k];
            assert(name_from_set(e, files));
            if exists|i: int, m: int|
                0 <= i < files.len() && 0 <= m < files[i].message_type@.len() && name_from(
                    e,
                    #[trigger] files[i].message_type@[m],
                    file_scope(files[i]),
                ) {
                let (i, m) = choose|i: int, m: int|
                    0 <= i < files.len() && 0 <= m < files[i].message_type@.len() && name_from(
                        e,
                        #[trigger] files[i].message_type@[m],
                        file_scope(files[i]),
                    );
                let mp = files[i].message_type@[m];
                match e.1 {
                    Definition::Message(_) => {
                        let q = choose|q: Seq<u32>|
                            #[trigger] descend(mp, q) is Some && desc_name(mp, file_scope(files[i]), q) == x;
                        assert(set_declares_message(files, x));
                    },
                    Definition::Enum(_) => {
                        let (q, j) = choose|q: Seq<u32>, j: int|
                            descend(mp, q) is Some && 0 <= j < descend(mp, q)->0.enum_type@.len() && spec_join(
                                desc_name(mp, file_scope(files[i]), q),
                                (#[trigger] descend(mp, q)->0.enum_type@[j]).name->0@,
                            ) == x;
                        assert(set_declares_enum(files, x));
                    },
                }
            } else {
                assert(set_declares_enum(files, x));
            }
        }
    }
}

/// With the set's names joined to `names` as in [`lemma_knows_registered`],
/// the pool's relative lookup lands on [`set_relative_target`].
proof fn lemma_relative_target(
    pool: &PoolInner,
    names: Seq<(String, Definition)>,
    files: Seq<FileDescriptorProto>,
    scope: Seq<char>,
    name: Seq<char>,
)
    requires
        forall|i: int| 0 <= i < files.len() ==> file_names_bound(pool.names@, #[trigger] files[i]),
        names.len() <= pool.names@.len(),
        pool.names@.take(names.len() as int) == names,
        forall|k: int|
            names.len() <= k < pool.names@.len() ==> name_from_set(#[trigger] pool.names@[k], files),
    ensures
        spec_resolve_relative(pool.names@, scope, name) == (match set_relative_target(
            names,
            files,
            scope,
            name,
        ) {
            Some(c) => table_get(pool.names@, c),
            None => None,
        }),
    decreases scope.len(),
{
    lemma_knows_registered(pool, names, files, spec_join(scope, name));
    if !set_knows(names, files, spec_join(scope, name)) && scope.len() > 0 {
        lemma_last_dot(scope);
        lemma_relative_target(pool, names, files, parent_scope(scope), name);
    }
}

/// A field whose type the pool resolves refers to a target that `names`
/// binds or the set declares, of the kind the field asks for.
proof fn lemma_resolved_target_ok(
    pool: &PoolInner,
    names: Seq<(String, Definition)>,
    files: Seq<FileDescriptorProto>,
    scope: Seq<char>,
    f: FieldDescriptorProto,
)
    requires
        forall|i: int| 0 <= i < files.len() ==> file_names_bound(pool.names@, #[trigger] files[i]),
        names.len() <= pool.names@.len(),
        pool.names@.take(names.len() as int) == names,
        forall|k: int|
            names.len() <= k < pool.names@.len() ==> name_from_set(#[trigger] pool.names@[k], files),
        spec_resolve_kind(pool.names@, scope, &f) is Some,
    ensures
        field_target_ok(names, files, scope, f),
{
    if !(f.field_type is Some && spec_scalar_kind(f.field_type->0) is Some) {
        let tn = f.type_path->0@;
        let x = field_target_name(names, files, scope, f);
        if !(tn.len() > 0 && tn[0] == '.') {
            lemma_relative_target(pool, names, files, scope, tn);
        }
        assert(spec_resolve_type_name(pool.names@, scope, tn) == table_get(pool.names@, x));
        lemma_knows_registered(pool, names, files, x);
    }
}

/// A plain message declaration whose field types resolve against
/// `names` and the set resolves in every pool that binds the set's
/// declarations, extends `names`, and binds nothing else.
proof fn lemma_plain_resolvable(
    pool: &PoolInner,
    names: Seq<(String, Definition)>,
    files: Seq<FileDescriptorProto>,
    scope: Seq<char>,
    proto3: bool,
    m: DescriptorProto,
)
    requires
        plain_message(m, proto3),
        forall|k: int|
            0 <= k < m.field@.len() ==> field_target_ok(names, files, scope, #[trigger] m.field@[k]),
        forall|i: int| 0 <= i < files.len() ==> file_names_bound(pool.names@, #[trigger] files[i]),
        names.len() <= pool.names@.len(),
        pool.names@.take(names.len() as int) == names,
        forall|k: int|
            names.len() <= k < pool.names@.len() ==> name_from_set(#[trigger] pool.names@[k], files),
    ensures
        fields_resolvable(pool, scope, proto3, &m),
{
    assert forall|k: int| 0 <= k < m.field@.len() implies spec_field_ok(
        pool,
        scope,
        proto3,
        &#[trigger] m.field@[k],
    ) by {
        let f = m.field@[k];
        assert(plain_field(f, proto3));
        assert(field_target_ok(names, files, scope, f));
        if !(f.field_type is Some && spec_scalar_kind(f.field_type->0) is Some) {
            let tn = f.type_path->0@;
            let x = field_target_name(names, files, scope, f);
            if tn.len() > 0 && tn[0] == '.' {
                assert(spec_resolve_type_name(pool.names@, scope, tn) == table_get(pool.names@, x));
            } else {
                lemma_relative_target(pool, names, files, scope, tn);
                assert(spec_resolve_type_name(pool.names@, scope, tn) == table_get(pool.names@, x));
            }
            lemma_declared_bound(pool, names, files, x);
            lemma_knows_registered(pool, names, files, x);
        }
    }
}

/// `t` is an absolute reference to a message that `files` declare or
/// `names` binds.
pub open spec fn method_target(
    names: Seq<(String, Definition)>,
    files: Seq<FileDescriptorProto>,
    t: Option<String>,
) -> bool {
    &&& t is Some
    &&& t->0@.len() > 0
    &&& t->0@[0] == '.'
    &&& set_declares_message(files, t->0@.drop_first()) || binds_message(names, t->0@.drop_first())
}

/// A service declaration of the set that resolves: named, and each method
/// named with input and output types that [`method_target`] accepts.
pub open spec fn service_ok(
    names: Seq<(String, Definition)>,
    files: Seq<FileDescriptorProto>,
    sv: ServiceDescriptorProto,
) -> bool {
    &&& sv.name is Some
    &&& sv.method@.len() <= 0xffff_ffff
    &&& forall|k: int|
        0 <= k < sv.method@.len() ==> {
            &&& (#[trigger] sv.method@[k]).name is Some
            &&& method_target(names, files, sv.method@[k].input_type)
            &&& method_target(names, files, sv.method@[k].output_type)
        }
}

/// The full name of the `j`-th service of file `fp`.
pub open spec fn service_name_of(fp: FileDescriptorProto, j: int) -> Seq<char> {
    spec_join(file_scope(fp), fp.service@[j].name->0@)
}

/// How many services `files[from..to]` declare.
pub open spec fn set_service_count(files: Seq<FileDescriptorProto>, from: int, to: int) -> nat
    decreases to - from,
{
    if from >= to {
        0
    } else {
        files[from].service@.len() + set_service_count(files, from + 1, to)
    }
}

/// The services of a set can all be registered in a pool whose names are
/// `names`, whose service names are `taken` and which holds `n` services:
/// each resolves, their full names are distinct and free, and the counts
/// fit.
pub open spec fn set_services_ok(
    names: Seq<(String, Definition)>,
    taken: Seq<(String, u32)>,
    n: nat,
    files: Seq<FileDescriptorProto>,
) -> bool {
    &&& forall|i: int, j: int|
        0 <= i < files.len() && 0 <= j < files[i].service@.len() ==> service_ok(
            names,
            files,
            #[trigger] files[i].service@[j],
        )
    &&& forall|i: int| 0 <= i < files.len() ==> (#[trigger] files[i]).service@.len() <= 0xffff_ffff
    &&& forall|i: int, j: int|
        0 <= i < files.len() && 0 <= j < files[i].service@.len() ==> table_get(
            taken,
            #[trigger] service_name_of(files[i], j),
        ) is None
    &&& forall|i1: int, j1: int, i2: int, j2: int|
        0 <= i1 < files.len() && 0 <= j1 < files[i1].service@.len() && 0 <= i2 < files.len() && 0
            <= j2 < files[i2].service@.len() && (i1 != i2 || j1 != j2) ==> #[trigger] service_name_of(
            files[i1],
            j1,
        ) != #[trigger] service_name_of(files[i2], j2)
    &&& n + set_service_count(files, 0, files.len() as int) < 0xffff_ffff
}

/// Every message (at any depth) and every enum that file `fp` declares is
/// bound in `names` under its full name.
pub open spec fn file_names_bound(names: Seq<(String, Definition)>, fp: FileDescriptorProto) -> bool {
    &&& forall|m: int|
        0 <= m < fp.message_type@.len() ==> names_bound(
            names,
            #[trigger] fp.message_type@[m],
            file_scope(fp),
        )
    &&& forall|j: int|
        0 <= j < fp.enum_type@.len() ==> binds_enum(
            names,
            spec_join(file_scope(fp), (#[trigger] fp.enum_type@[j]).name->0@),
        )
}

proof fn lemma_file_names_bound_grow(
    a: Seq<(String, Definition)>,
    b: Seq<(String, Definition)>,
    fp: FileDescriptorProto,
)
    requires
        a.len() <= b.len(),
        b.take(a.len() as int) == a,
        file_names_bound(a, fp),
    ensures
        file_names_bound(b, fp),
{
    assert forall|m: int| 0 <= m < fp.message_type@.len() implies names_bound(
        b,
        #[trigger] fp.message_type@[m],
        file_scope(fp),
    ) by {
        lemma_names_bound_grow(a, b, fp.message_type@[m], file_scope(fp));
    }
    assert forall|j: int| 0 <= j < fp.enum_type@.len() implies binds_enum(
        b,
        spec_join(file_scope(fp), (#[trigger] fp.enum_type@[j]).name->0@),
    ) by {
        lemma_table_prefix(a, b, spec_join(file_scope(fp), fp.enum_type@[j].name->0@));
    }
}

/// What registering a file yields.
pub open spec fn file_registered(pool: &PoolInner, fi: int, proto: &FileDescriptorProto) -> bool {
    &&& proto.name is Some
    &&& 0 <= fi < pool.files@.len()
    &&& *pool.files@[fi].proto == *proto
    &&& pool.files@[fi].name@ == proto.name->0@
    &&& pool.files@[fi].package@ == (match proto.package {
        Some(p) => p@,
        None => seq![],
    })
    &&& pool.files@[fi].messages@.len() == proto.message_type@.len()
    &&& pool.files@[fi].enums@.len() == proto.enum_type@.len()
    &&& (pool.files@[fi].syntax@ == proto3_chars()) == file_is_proto3(*proto)
    &&& table_get(pool.file_names@, proto.name->0@) == Some(fi as u32)
}

/// Binding `e` names a message or enum that one of `files` declares, of
/// the kind it binds.
pub open spec fn name_from_set(e: (String, Definition), files: Seq<FileDescriptorProto>) -> bool {
    ||| exists|i: int, m: int|
        0 <= i < files.len() && 0 <= m < files[i].message_type@.len() && name_from(
            e,
            #[trigger] files[i].message_type@[m],
            file_scope(files[i]),
        )
    ||| e.1 is Enum && exists|i: int, j: int|
        0 <= i < files.len() && 0 <= j < files[i].enum_type@.len() && spec_join(
            file_scope(files[i]),
            (#[trigger] files[i].enum_type@[j]).name->0@,
        ) == e.0@
}

/// Enum entry `e` came from one of `files` (registered from index `n0`
/// on), and has a value numbered 0 if that file is plain and proto3.
pub open spec fn enum_zero_from_set(e: EnumEntry, files: Seq<FileDescriptorProto>, n0: int) -> bool {
    &&& n0 <= e.file < n0 + files.len()
    &&& (plain_file(files[e.file - n0]) && file_is_proto3(files[e.file - n0])) ==> entry_has_zero(e)
}

/// Pass 1: register every file with its messages and enums.
#[verifier::loop_isolation(false)]
#[verifier::rlimit(50)]
fn register_files(pool: &mut PoolInner, files: Vec<FileDescriptorProto>) -> (r: Result<
    (),
    DescriptorError,
>)
    requires
        old(pool).wf(),
    ensures
        r is Ok ==> final(pool).wf(),
        grows(old(pool), final(pool)),
        r is Ok ==> final(pool).files@.len() == old(pool).files@.len() + files@.len(),
        r is Ok ==> forall|i: int|
            0 <= i < files@.len() ==> file_registered(
                final(pool),
                old(pool).files@.len() + i,
                &#[trigger] files@[i],
            ),
        r is Ok ==> forall|i: int|
            old(pool).files@.len() <= i < final(pool).files@.len() ==> (
            #[trigger] final(pool).files@[i]).services@.len() == 0,
        r is Ok <==> set_registrable(old(pool), files@),
        r is Ok ==> forall|j: int|
            old(pool).messages@.len() <= j < final(pool).messages@.len() ==> msg_from_set(
                #[trigger] final(pool).messages@[j],
                files@,
                old(pool).files@.len() as int,
            ),
        r is Ok ==> forall|e: int|
            old(pool).enums@.len() <= e < final(pool).enums@.len() ==> enum_zero_from_set(
                #[trigger] final(pool).enums@[e],
                files@,
                old(pool).files@.len() as int,
            ),
        r is Ok ==> forall|i: int|
            0 <= i < files@.len() ==> file_names_bound(final(pool).names@, #[trigger] files@[i]),
        r is Ok ==> forall|k: int|
            old(pool).names@.len() <= k < final(pool).names@.len() ==> name_from_set(
                #[trigger] final(pool).names@[k],
                files@,
            ),
        r is Ok ==> forall|i: int, path: Seq<u32>|
            0 <= i < files@.len() && #[trigger] spec_message_proto(&files@[i], path) is Some
                ==> has_entry(
                final(pool).messages@,
                old(pool).messages@.len() as int,
                (old(pool).files@.len() + i) as u32,
                path,
            ),
        final(pool).services@ == old(pool).services@,
        final(pool).service_names@ == old(pool).service_names@,
{
    proof {
        lemma_grows_refl(pool);
    }
    let ghost n0 = old(pool).files@.len();
    let mut rest = files;
    let ghost all = rest@;
    let ghost g0 = set_registrable(old(pool), all);
    let mut i: usize = 0;
    assert(all.skip(0) =~= all);
    while rest.len() > 0
        invariant
            i <= all.len(),
            rest@ == all.skip(i as int),
            pool.wf(),
            grows(old(pool), pool),
            pool.files@.len() == n0 + i,
            forall|k: int| 0 <= k < i ==> file_registered(pool, n0 + k, &#[trigger] all[k]),
            forall|k: int| n0 <= k < pool.files@.len() ==> (#[trigger] pool.files@[k]).services@.len() == 0,
            g0 == files_reg(
                all,
                i as int,
                file_names_in_use(pool),
                pool.files@.len(),
                names_in_use(pool),
                pool.messages@.len(),
                pool.enums@.len(),
            ),
            forall|j: int|
                old(pool).messages@.len() <= j < pool.messages@.len() ==> msg_from_set(
                    #[trigger] pool.messages@[j],
                    all,
                    n0 as int,
                ),
            forall|e: int|
                old(pool).enums@.len() <= e < pool.enums@.len() ==> enum_zero_from_set(
                    #[trigger] pool.enums@[e],
                    all,
                    n0 as int,
                ),
            forall|k: int| 0 <= k < i ==> file_names_bound(pool.names@, #[trigger] all[k]),
            forall|k: int|
                old(pool).names@.len() <= k < pool.names@.len() ==> name_from_set(
                    #[trigger] pool.names@[k],
                    all,
                ),
            forall|k: int, path: Seq<u32>|
                0 <= k < i && #[trigger] spec_message_proto(&all[k], path) is Some ==> has_entry(
                    pool.messages@,
                    old(pool).messages@.len() as int,
                    (n0 + k) as u32,
                    path,
                ),
            pool.services@ == old(pool).services@,
            pool.service_names@ == old(pool).service_names@,
        decreases rest@.len(),
    {
        let ghost before = *pool;
        let ghost fk = file_names_in_use(pool);
        let ghost t0 = names_in_use(pool);
        let ghost nf0 = pool.files@.len();
        let ghost nm0 = pool.messages@.len();
        let ghost ne0 = pool.enums@.len();
        let fp = rest.remove(0);
        assert(fp == all[i as int]);
        assert(rest@ =~= all.skip(i + 1));
        let name = match &fp.name {
            Some(n) => n.clone(),
            None => {
                return Err(DescriptorError::MissingFileName);
            },
        };
        if table_find(&pool.file_names, &name).is_some() {
            assert(fk.contains(name@));
            return Err(DescriptorError::DuplicateFile(name));
        }
        if pool.files.len() >= 0xffff_fffe || fp.message_type.len() > 0xffff_ffff
            || fp.enum_type.len() > 0xffff_ffff {
            return Err(DescriptorError::Validation("too many files or types in pool".to_owned()));
        }
        let fi = pool.files.len() as u32;
        let package = match &fp.package {
            Some(p) => p.clone(),
            None => String::new(),
        };
        assert(package@ == file_scope(fp));
        assert(!fk.contains(name@));
        proof {
            lemma_wf_pending_weaken(pool, 0, 1);
            lemma_extends_refl(pool);
        }
        let mut messages: Vec<u32> = Vec::new();
        let mut k: usize = 0;
        while k < fp.message_type.len()
            invariant
                k <= fp.message_type@.len(),
                pool.wf_pending(1),
                extends(&before, pool),
                messages@.len() == k,
                forall|j: int| 0 <= j < k ==> #[trigger] messages@[j] < pool.messages@.len(),
                msgs_reg(fp.message_type@, package@, 0, t0, nm0, ne0) == msgs_reg(
                    fp.message_type@,
                    package@,
                    k as int,
                    names_in_use(pool),
                    pool.messages@.len(),
                    pool.enums@.len(),
                ),
                forall|j: int|
                    old(pool).messages@.len() <= j < pool.messages@.len() ==> msg_from_set(
                        #[trigger] pool.messages@[j],
                        all,
                        n0 as int,
                    ),
                forall|e: int|
                    old(pool).enums@.len() <= e < pool.enums@.len() ==> enum_zero_from_set(
                        #[trigger] pool.enums@[e],
                        all,
                        n0 as int,
                    ),
                forall|kk: int| 0 <= kk < i ==> file_names_bound(pool.names@, #[trigger] all[kk]),
                forall|kx: int|
                    old(pool).names@.len() <= kx < pool.names@.len() ==> name_from_set(
                        #[trigger] pool.names@[kx],
                        all,
                    ),
                forall|m: int|
                    0 <= m < k ==> names_bound(pool.names@, #[trigger] fp.message_type@[m], package@),
                forall|path: Seq<u32>|
                    #[trigger] spec_message_proto(&fp, path) is Some && path[0] < k ==> has_entry(
                        pool.messages@,
                        nm0 as int,
                        fi,
                        path,
                    ),
                nm0 <= pool.messages@.len(),
                pool.messages@.take(nm0 as int) == before.messages@,
            decreases fp.message_type@.len() - k,
        {
            let ghost b2 = *pool;
            proof {
                if plain_file(fp) && file_is_proto3(fp) {
                    let c = fp.message_type@[k as int];
                    assert forall|q: Seq<u32>, jj: int|
                        #[trigger] descend(c, q) is Some && 0 <= jj < descend(c, q)->0.enum_type@.len()
                            implies has_zero(#[trigger] descend(c, q)->0.enum_type@[jj]) by {
                        let path = seq![k as u32] + q;
                        assert(path[0] == k as u32);
                        assert(path.drop_first() =~= q);
                        assert(spec_message_proto(&fp, path) == descend(c, q));
                        assert(plain_message(spec_message_proto(&fp, path)->0, true));
                    }
                    assert(zero_enums_below(c));
                }
            }
            let mut path: Vec<u32> = Vec::new();
            path.push(k as u32);
            let ghost pv = path@;
            assert(pv =~= seq![k as u32]);
            match register_message(pool, &fp.message_type[k], package.as_str(), None, fi, path) {
                Ok(m) => {
                    messages.push(m);
                    proof {
                        assert forall|j: int|
                            old(pool).messages@.len() <= j < pool.messages@.len() implies msg_from_set(
                            #[trigger] pool.messages@[j],
                            all,
                            n0 as int,
                        ) by {
                            if j < b2.messages@.len() {
                                assert(pool.messages@[j] == pool.messages@.take(b2.messages@.len() as int)[j]);
                                assert(msg_from_set(b2.messages@[j], all, n0 as int));
                            } else {
                                let e = pool.messages@[j];
                                assert(entry_below(e, fp.message_type@[k as int], package@, fi, seq![k as u32]));
                                let pp = e.proto_path@;
                                assert(pp.take(1) == seq![k as u32]);
                                assert(pp[0] == pp.take(1)[0]);
                                assert(pp.skip(1) =~= pp.drop_first());
                                assert(all[e.file - n0] == fp);
                            }
                        }
                        assert(all[i as int] == fp);
                        assert forall|e: int| old(pool).enums@.len() <= e < pool.enums@.len() implies enum_zero_from_set(
                            #[trigger] pool.enums@[e],
                            all,
                            n0 as int,
                        ) by {
                            if e < b2.enums@.len() {
                                assert(pool.enums@[e] == pool.enums@.take(b2.enums@.len() as int)[e]);
                                assert(enum_zero_from_set(b2.enums@[e], all, n0 as int));
                            } else {
                                assert(pool.enums@[e].file == fi);
                            }
                        }
                    }
                },
                Err(e) => {
                    assert(msgs_reg(
                        fp.message_type@,
                        package@,
                        k as int,
                        names_in_use(&b2),
                        b2.messages@.len(),
                        b2.enums@.len(),
                    ) is None);
                    assert(file_reg(fp, fk, nf0, t0, nm0, ne0) is None);
                    proof {
                        lemma_extends_trans(&before, &b2, pool);
                        lemma_extends_grows(&before, pool);
                        lemma_grows_trans(old(pool), &before, pool);
                    }
                    return Err(e);
                },
            }
            proof {
                lemma_extends_trans(&before, &b2, pool);
                assert forall|kk: int| 0 <= kk < i implies file_names_bound(pool.names@, #[trigger] all[kk]) by {
                    lemma_file_names_bound_grow(b2.names@, pool.names@, all[kk]);
                }
                assert forall|kx: int| old(pool).names@.len() <= kx < pool.names@.len() implies name_from_set(
                    #[trigger] pool.names@[kx],
                    all,
                ) by {
                    if kx < b2.names@.len() {
                        assert(pool.names@[kx] == pool.names@.take(b2.names@.len() as int)[kx]);
                        assert(name_from_set(b2.names@[kx], all));
                    } else {
                        assert(name_from(pool.names@[kx], fp.message_type@[k as int], package@));
                        assert(all[i as int] == fp);
                        assert(name_from(pool.names@[kx], all[i as int].message_type@[k as int], file_scope(all[i as int])));
                    }
                }
                assert forall|m: int| 0 <= m < k + 1 implies names_bound(
                    pool.names@,
                    #[trigger] fp.message_type@[m],
                    package@,
                ) by {
                    if m < k {
                        lemma_names_bound_grow(b2.names@, pool.names@, fp.message_type@[m], package@);
                    }
                }
                assert forall|q: Seq<u32>| #[trigger] descend(fp.message_type@[k as int], q) is Some implies has_entry(
                    pool.messages@,
                    b2.messages@.len() as int,
                    fi,
                    seq![k as u32] + q,
                ) by {
                    assert(pv + q == seq![k as u32] + q);
                }
                lemma_has_entry_top(b2.messages@, pool.messages@, fp, fi, k as u32, nm0 as int);
                assert(pool.messages@.take(nm0 as int) =~= before.messages@);
            }
            k = k + 1;
        }
        let ghost t1 = names_in_use(pool);
        let ghost m1 = pool.messages@.len();
        let ghost e1 = pool.enums@.len();
        assert(msgs_reg(fp.message_type@, package@, 0, t0, nm0, ne0) == Some((t1, m1, e1)));
        let mut enums: Vec<u32> = Vec::new();
        let mut k: usize = 0;
        while k < fp.enum_type.len()
            invariant
                k <= fp.enum_type@.len(),
                pool.wf_pending(1),
                extends(&before, pool),
                messages@.len() == fp.message_type@.len(),
                forall|j: int| 0 <= j < messages@.len() ==> #[trigger] messages@[j] < pool.messages@.len(),
                enums@.len() == k,
                forall|j: int| 0 <= j < k ==> #[trigger] enums@[j] < pool.enums@.len(),
                enums_reg(fp.enum_type@, package@, 0, t1, m1, e1) == enums_reg(
                    fp.enum_type@,
                    package@,
                    k as int,
                    names_in_use(pool),
                    pool.messages@.len(),
                    pool.enums@.len(),
                ),
                forall|j: int|
                    old(pool).messages@.len() <= j < pool.messages@.len() ==> msg_from_set(
                        #[trigger] pool.messages@[j],
                        all,
                        n0 as int,
                    ),
                forall|e: int|
                    old(pool).enums@.len() <= e < pool.enums@.len() ==> enum_zero_from_set(
                        #[trigger] pool.enums@[e],
                        all,
                        n0 as int,
                    ),
                forall|kk: int| 0 <= kk < i ==> file_names_bound(pool.names@, #[trigger] all[kk]),
                forall|kx: int|
                    old(pool).names@.len() <= kx < pool.names@.len() ==> name_from_set(
                        #[trigger] pool.names@[kx],
                        all,
                    ),
                forall|m: int|
                    0 <= m < fp.message_type@.len() ==> names_bound(
                        pool.names@,
                        #[trigger] fp.message_type@[m],
                        package@,
                    ),
                forall|jj: int|
                    0 <= jj < k ==> binds_enum(
                        pool.names@,
                        spec_join(package@, (#[trigger] fp.enum_type@[jj]).name->0@),
                    ),
                forall|path: Seq<u32>|
                    #[trigger] spec_message_proto(&fp, path) is Some ==> has_entry(
                        pool.messages@,
                        nm0 as int,
                        fi,
                        path,
                    ),
                nm0 <= pool.messages@.len(),
                pool.messages@.take(nm0 as int) == before.messages@,
            decreases fp.enum_type@.len() - k,
        {
            let ghost b2 = *pool;
            proof {
                let ep = fp.enum_type@[k as int];
                if ep.name is Some {
                    let full = spec_join(package@, ep.name->0@);
                    assert(names_in_use(&b2).contains(full) == (table_get(b2.names@, full) is Some));
                }
            }
            let mut path: Vec<u32> = Vec::new();
            path.push(k as u32);
            match register_enum(pool, &fp.enum_type[k], package.as_str(), None, fi, path) {
                Ok(e) => {
                    enums.push(e);
                    proof {
                        assert(all[i as int] == fp);
                        if plain_file(fp) && file_is_proto3(fp) {
                            let ep = fp.enum_type@[k as int];
                            assert(has_zero(ep));
                            let w = choose|x: int| 0 <= x < ep.value@.len() && (#[trigger] ep.value@[x]).number
                                == Some(0i32);
                            let ne = pool.enums@[e as int];
                            assert(Some(ne.values@[w].number) == ep.value@[w].number);
                            assert(entry_has_zero(ne));
                        }
                        assert forall|x: int| old(pool).enums@.len() <= x < pool.enums@.len() implies enum_zero_from_set(
                            #[trigger] pool.enums@[x],
                            all,
                            n0 as int,
                        ) by {
                            if x < b2.enums@.len() {
                                assert(pool.enums@[x] == pool.enums@.take(b2.enums@.len() as int)[x]);
                                assert(enum_zero_from_set(b2.enums@[x], all, n0 as int));
                            }
                        }
                    }
                },
                Err(e) => {
                    assert(enums_reg(
                        fp.enum_type@,
                        package@,
                        k as int,
                        names_in_use(&b2),
                        b2.messages@.len(),
                        b2.enums@.len(),
                    ) is None);
                    assert(file_reg(fp, fk, nf0, t0, nm0, ne0) is None);
                    proof {
                        lemma_extends_trans(&before, &b2, pool);
                        lemma_extends_grows(&before, pool);
                        lemma_grows_trans(old(pool), &before, pool);
                    }
                    return Err(e);
                },
            }
            proof {
                lemma_extends_trans(&before, &b2, pool);
                assert forall|kk: int| 0 <= kk < i implies file_names_bound(pool.names@, #[trigger] all[kk]) by {
                    lemma_file_names_bound_grow(b2.names@, pool.names@, all[kk]);
                }
                assert forall|m: int| 0 <= m < fp.message_type@.len() implies names_bound(
                    pool.names@,
                    #[trigger] fp.message_type@[m],
                    package@,
                ) by {
                    lemma_names_bound_grow(b2.names@, pool.names@, fp.message_type@[m], package@);
                }
                assert forall|kx: int| old(pool).names@.len() <= kx < pool.names@.len() implies name_from_set(
                    #[trigger] pool.names@[kx],
                    all,
                ) by {
                    if kx < b2.names@.len() {
                        assert(pool.names@[kx] == pool.names@.take(b2.names@.len() as int)[kx]);
                        assert(name_from_set(b2.names@[kx], all));
                    } else {
                        assert(kx == b2.names@.len());
                        assert(all[i as int] == fp);
                        assert(pool.names@[kx] == pool.names@.last());
                        assert(spec_join(file_scope(all[i as int]), all[i as int].enum_type@[k as int].name->0@)
                            == pool.names@[kx].0@);
                    }
                }
                assert forall|jj: int| 0 <= jj < k + 1 implies binds_enum(
                    pool.names@,
                    spec_join(package@, (#[trigger] fp.enum_type@[jj]).name->0@),
                ) by {
                    if jj < k {
                        lemma_table_prefix(b2.names@, pool.names@, spec_join(package@, fp.enum_type@[jj].name->0@));
                    }
                }
            }
            k = k + 1;
        }
        let syntax = match &fp.syntax {
            Some(x) => x.clone(),
            None => "proto2".to_owned(),
        };
        proof {
            reveal_strlit("proto2");
            if fp.syntax is None {
                assert(syntax@[5] != proto3_chars()[5]);
            }
            assert((syntax@ == proto3_chars()) == file_is_proto3(fp));
        }
        proof {
            lemma_table_get_push(pool.file_names@, name, fi, name@);
            lemma_names_push(pool.file_names@, name, fi);
        }
        let ghost mid = *pool;
        assert(file_reg(fp, fk, nf0, t0, nm0, ne0) == Some(
            (names_in_use(&mid), mid.messages@.len(), mid.enums@.len()),
        ));
        pool.file_names.push((name.clone(), fi));
        pool.files.push(
            FileEntry {
                proto: Arc::new(fp),
                name,
                package,
                syntax,
                messages,
                enums,
                services: Vec::new(),
            },
        );
        proof {
            assert(pool.files@.take(mid.files@.len() as int) =~= mid.files@);
            assert(pool.file_names@.take(mid.file_names@.len() as int) =~= mid.file_names@);
            assert(mid.services@.take(mid.services@.len() as int) =~= mid.services@);
            assert(mid.service_names@.take(mid.service_names@.len() as int) =~= mid.service_names@);
            assert(mid.messages@.take(mid.messages@.len() as int) =~= mid.messages@);
            assert(mid.enums@.take(mid.enums@.len() as int) =~= mid.enums@);
            assert(mid.names@.take(mid.names@.len() as int) =~= mid.names@);
            assert(grows(&mid, pool));
            lemma_extends_grows(&before, &mid);
            lemma_grows_trans(&before, &mid, pool);
            lemma_grows_trans(old(pool), &before, pool);
            assert(file_names_in_use(pool) == fk.insert(name@));
            assert(names_in_use(pool) == names_in_use(&mid));
            assert(pool.names@ == mid.names@);
            assert(file_names_bound(pool.names@, all[i as int]));
            assert forall|k: int| 0 <= k < i + 1 implies file_registered(
                pool,
                n0 + k,
                &#[trigger] all[k],
            ) by {
                if k < i {
                    assert(file_registered(&before, n0 + k, &all[k]));
                    assert(pool.files@[n0 + k] == before.files@[n0 + k]);
                    lemma_table_prefix(before.file_names@, pool.file_names@, all[k].name->0@);
                }
            }
            assert(pool.messages@ == mid.messages@);
            assert forall|k: int, path: Seq<u32>|
                0 <= k < i + 1 && #[trigger] spec_message_proto(&all[k], path) is Some implies has_entry(
                pool.messages@,
                old(pool).messages@.len() as int,
                (n0 + k) as u32,
                path,
            ) by {
                if k < i {
                    lemma_has_entry_grow(
                        before.messages@,
                        pool.messages@,
                        old(pool).messages@.len() as int,
                        old(pool).messages@.len() as int,
                        (n0 + k) as u32,
                        path,
                    );
                } else {
                    assert(all[k] == fp);
                    assert(pool.messages@.take(pool.messages@.len() as int) =~= pool.messages@);
                    lemma_has_entry_grow(
                        pool.messages@,
                        pool.messages@,
                        nm0 as int,
                        old(pool).messages@.len() as int,
                        fi,
                        path,
                    );
                }
            }
        }
        i = i + 1;
    }
    Ok(())
}


/// Message entry `k` of `pool` holds the fields and oneofs that its
/// declaration resolves to in `pool`.
pub open spec fn message_resolved(pool: &PoolInner, k: int) -> bool {
    let m = pool.messages@[k];
    let file = pool.files@[m.file as int];
    &&& spec_message_proto(&file.proto, m.proto_path@) is Some
    &&& fields_resolved(
        pool,
        m.full_name@,
        file.syntax@ == proto3_chars(),
        &spec_message_proto(&file.proto, m.proto_path@)->0,
        m.fields@,
        m.oneofs@,
    )
}

/// Resolved fields stay resolved in a pool with the same names and enums
/// and as many messages.
proof fn lemma_fields_resolved_frame(
    p: &PoolInner,
    q: &PoolInner,
    scope: Seq<char>,
    proto3: bool,
    proto: &DescriptorProto,
    fs: Seq<FieldEntry>,
    os: Seq<OneofEntry>,
)
    requires
        p.names@ == q.names@,
        p.enums@ == q.enums@,
        p.messages@.len() == q.messages@.len(),
        fields_resolved(p, scope, proto3, proto, fs, os),
    ensures
        fields_resolved(q, scope, proto3, proto, fs, os),
{
    assert forall|i: int| 0 <= i < fs.len() implies spec_field_entry_matches(
        &#[trigger] fs[i],
        q,
        scope,
        proto3,
        &proto.field@[i],
        i as u32,
    ) by {
        assert(spec_field_entry_matches(&fs[i], p, scope, proto3, &proto.field@[i], i as u32));
        let f = proto.field@[i];
        let kind = spec_resolve_kind(p.names@, scope, &f)->0;
        assert(default_enum_values(p, kind) == default_enum_values(q, kind));
    }
}


/// Pass 2: resolve the fields of every message from index `first` on.
#[verifier::loop_isolation(false)]
fn resolve_messages_from(pool: &mut PoolInner, first: usize) -> (r: Result<(), DescriptorError>)
    requires
        old(pool).wf(),
        first <= old(pool).messages@.len(),
    ensures
        final(pool).wf(),
        final(pool).files@ == old(pool).files@,
        final(pool).file_names@ == old(pool).file_names@,
        final(pool).services@ == old(pool).services@,
        final(pool).service_names@ == old(pool).service_names@,
        final(pool).names@ == old(pool).names@,
        final(pool).enums@ == old(pool).enums@,
        final(pool).messages@.len() == old(pool).messages@.len(),
        final(pool).messages@.take(first as int) == old(pool).messages@.take(first as int),
        r is Ok <==> forall|k: int|
            first <= k < old(pool).messages@.len() ==> #[trigger] message_resolvable(old(pool), k),
        r is Ok ==> forall|k: int|
            first <= k < final(pool).messages@.len() ==> #[trigger] message_resolved(final(pool), k),
        forall|k: int|
            0 <= k < final(pool).messages@.len() ==> {
                &&& (#[trigger] final(pool).messages@[k]).full_name == old(pool).messages@[k].full_name
                &&& final(pool).messages@[k].file == old(pool).messages@[k].file
                &&& final(pool).messages@[k].proto_path == old(pool).messages@[k].proto_path
            },
{
    let mut idx: usize = first;
    while idx < pool.messages.len()
        invariant
            first <= idx <= pool.messages@.len(),
            pool.wf(),
            pool.files@ == old(pool).files@,
            pool.file_names@ == old(pool).file_names@,
            pool.services@ == old(pool).services@,
            pool.service_names@ == old(pool).service_names@,
            pool.names@ == old(pool).names@,
            pool.enums@ == old(pool).enums@,
            pool.messages@.len() == old(pool).messages@.len(),
            pool.messages@.take(first as int) == old(pool).messages@.take(first as int),
            forall|k: int|
                idx <= k < pool.messages@.len() ==> #[trigger] pool.messages@[k]
                    == old(pool).messages@[k],
            forall|k: int| first <= k < idx ==> #[trigger] message_resolvable(old(pool), k),
            forall|k: int| first <= k < idx ==> #[trigger] message_resolved(pool, k),
            forall|k: int|
                0 <= k < pool.messages@.len() ==> {
                    &&& (#[trigger] pool.messages@[k]).full_name == old(pool).messages@[k].full_name
                    &&& pool.messages@[k].file == old(pool).messages@[k].file
                    &&& pool.messages@[k].proto_path == old(pool).messages@[k].proto_path
                },
        decreases pool.messages@.len() - idx,
    {
        let ghost before = *pool;
        proof {
            lemma_resolvable_frame(&before, old(pool), idx as int);
        }
        let r = resolve_message(pool, idx as u32);
        proof {
            assert(pool.messages@.take(first as int) =~= before.messages@.take(first as int));
        }
        match r {
            Ok(()) => {},
            Err(e) => {
                return Err(e);
            },
        }
        proof {
            let m = before.messages@[idx as int];
            let n = pool.messages@[idx as int];
            let file = before.files@[m.file as int];
            lemma_fields_resolved_frame(
                &before,
                pool,
                m.full_name@,
                file.syntax@ == proto3_chars(),
                &spec_message_proto(&file.proto, m.proto_path@)->0,
                n.fields@,
                n.oneofs@,
            );
            assert(message_resolved(pool, idx as int));
            assert forall|k: int| first <= k < idx + 1 implies #[trigger] message_resolved(pool, k) by {
                if k < idx {
                    assert(message_resolved(&before, k));
                    let mk = before.messages@[k];
                    assert(pool.messages@[k] == mk);
                    let fk = before.files@[mk.file as int];
                    lemma_fields_resolved_frame(
                        &before,
                        pool,
                        mk.full_name@,
                        fk.syntax@ == proto3_chars(),
                        &spec_message_proto(&fk.proto, mk.proto_path@)->0,
                        mk.fields@,
                        mk.oneofs@,
                    );
                }
            }
        }
        idx = idx + 1;
    }
    Ok(())
}

/// Pass 2b: check every enum from index `first` on.
fn validate_enums_from(pool: &PoolInner, first: usize) -> (r: Result<(), DescriptorError>)
    requires
        pool.wf(),
    ensures
        r is Ok <==> forall|e: int| first <= e < pool.enums@.len() ==> spec_enum_ok(pool, e),
        r matches Err(x) ==> x is Proto3EnumMissingZero,
{
    let mut e: usize = first;
    while e < pool.enums.len()
        invariant
            pool.wf(),
            first <= e,
            forall|k: int| first <= k < e ==> spec_enum_ok(pool, k),
        decreases pool.enums@.len() - e,
    {
        match validate_enum(pool, e as u32) {
            Ok(()) => {},
            Err(x) => {
                assert(!spec_enum_ok(pool, e as int));
                return Err(x);
            },
        }
        e = e + 1;
    }
    Ok(())
}

/// Service declaration `sv` resolves against `names`: it is named, and
/// each method is named and takes and returns an absolute reference to a
/// message that `names` binds.
pub open spec fn service_resolves(names: Seq<(String, Definition)>, sv: ServiceDescriptorProto) -> bool {
    &&& sv.name is Some
    &&& sv.method@.len() <= 0xffff_ffff
    &&& forall|k: int|
        0 <= k < sv.method@.len() ==> {
            &&& (#[trigger] sv.method@[k]).name is Some
            &&& absolute_message(names, sv.method@[k].input_type)
            &&& absolute_message(names, sv.method@[k].output_type)
        }
}

/// `t` is `.` followed by a name `names` binds to a message.
pub open spec fn absolute_message(names: Seq<(String, Definition)>, t: Option<String>) -> bool {
    &&& t is Some
    &&& t->0@.len() > 0
    &&& t->0@[0] == '.'
    &&& binds_message(names, t->0@.drop_first())
}

/// The full name of the `j`-th service of file entry `f`.
pub open spec fn svc_full(f: FileEntry, j: int) -> Seq<char> {
    spec_join(f.package@, f.proto.service@[j].name->0@)
}

/// How many services the file entries `files[from..to]` declare.
pub open spec fn svc_count(files: Seq<FileEntry>, from: int, to: int) -> nat
    decreases to - from,
{
    if from >= to {
        0
    } else {
        files[from].proto.service@.len() + svc_count(files, from + 1, to)
    }
}

proof fn lemma_svc_count_split(files: Seq<FileEntry>, a: int, b: int, c: int)
    requires
        a <= b <= c,
    ensures
        svc_count(files, a, c) == svc_count(files, a, b) + svc_count(files, b, c),
    decreases b - a,
{
    if a < b {
        lemma_svc_count_split(files, a + 1, b, c);
    }
}

/// The services of the file entries of `pool` from index `first` on can
/// all be registered: each resolves, their full names are distinct and
/// not yet taken, and the counts fit.
pub open spec fn services_registrable(pool: &PoolInner, first: int) -> bool {
    &&& forall|k: int, j: int|
        first <= k < pool.files@.len() && 0 <= j < pool.files@[k].proto.service@.len()
            ==> service_resolves(pool.names@, #[trigger] pool.files@[k].proto.service@[j])
    &&& forall|k: int|
        first <= k < pool.files@.len() ==> (#[trigger] pool.files@[k]).proto.service@.len() <= 0xffff_ffff
    &&& forall|k: int, j: int|
        first <= k < pool.files@.len() && 0 <= j < pool.files@[k].proto.service@.len() ==> table_get(
            pool.service_names@,
            #[trigger] svc_full(pool.files@[k], j),
        ) is None
    &&& forall|k1: int, j1: int, k2: int, j2: int|
        first <= k1 < pool.files@.len() && 0 <= j1 < pool.files@[k1].proto.service@.len() && first
            <= k2 < pool.files@.len() && 0 <= j2 < pool.files@[k2].proto.service@.len() && (k1 != k2
            || j1 != j2) ==> #[trigger] svc_full(pool.files@[k1], j1) != #[trigger] svc_full(
            pool.files@[k2],
            j2,
        )
    &&& pool.services@.len() + svc_count(pool.files@, first, pool.files@.len() as int) < 0xffff_ffff
}

/// `x` is the full name of a service of the file entries of `pool`
/// registered before the `sv`-th service of file `fi` (from file `first`
/// on).
pub open spec fn svc_done(pool: &PoolInner, first: int, fi: int, sv: int, x: Seq<char>) -> bool {
    exists|k: int, j: int|
        first <= k <= fi && 0 <= j < pool.files@[k].proto.service@.len() && (k < fi || j < sv)
            && #[trigger] svc_full(pool.files@[k], j) == x
}

/// Pass 3: register the services of every file from index `first` on.
#[verifier::loop_isolation(false)]
fn register_services_from(pool: &mut PoolInner, first: usize) -> (r: Result<(), DescriptorError>)
    requires
        old(pool).wf(),
    ensures
        final(pool).wf(),
        final(pool).file_names@ == old(pool).file_names@,
        final(pool).names@ == old(pool).names@,
        final(pool).enums@ == old(pool).enums@,
        final(pool).messages@ == old(pool).messages@,
        final(pool).files@.len() == old(pool).files@.len(),
        final(pool).files@.take(first as int) == old(pool).files@.take(first as int),
        forall|k: int|
            0 <= k < final(pool).files@.len() ==> {
                &&& (#[trigger] final(pool).files@[k]).name == old(pool).files@[k].name
                &&& final(pool).files@[k].package == old(pool).files@[k].package
                &&& final(pool).files@[k].syntax == old(pool).files@[k].syntax
                &&& final(pool).files@[k].messages == old(pool).files@[k].messages
                &&& final(pool).files@[k].enums == old(pool).files@[k].enums
                &&& final(pool).files@[k].proto == old(pool).files@[k].proto
            },
        (forall|k: int|
            first <= k < old(pool).files@.len() ==> (#[trigger] old(pool).files@[k]).proto.service@.len()
                == 0) ==> r is Ok,
        services_registrable(old(pool), first as int) ==> r is Ok,
        old(pool).services@.len() <= final(pool).services@.len(),
        final(pool).services@.take(old(pool).services@.len() as int) == old(pool).services@,
        old(pool).service_names@.len() <= final(pool).service_names@.len(),
        final(pool).service_names@.take(old(pool).service_names@.len() as int)
            == old(pool).service_names@,
{
    proof {
        assert(pool.services@.take(pool.services@.len() as int) =~= pool.services@);
        assert(pool.service_names@.take(pool.service_names@.len() as int) =~= pool.service_names@);
    }
    let mut fi: usize = first;
    while fi < pool.files.len()
        invariant
            pool.wf(),
            pool.file_names@ == old(pool).file_names@,
            pool.names@ == old(pool).names@,
            pool.enums@ == old(pool).enums@,
            pool.messages@ == old(pool).messages@,
            pool.files@.len() == old(pool).files@.len(),
            first <= fi,
            services_registrable(old(pool), first as int) ==> pool.services@.len() == old(pool).services@.len() + svc_count(
                old(pool).files@,
                first as int,
                fi as int,
            ),
            services_registrable(old(pool), first as int) ==> forall|x: Seq<char>|
                #[trigger] table_get(pool.service_names@, x) is Some ==> table_get(
                    old(pool).service_names@,
                    x,
                ) is Some || svc_done(old(pool), first as int, fi as int, 0, x),
            pool.files@.take(first as int) == old(pool).files@.take(first as int),
            forall|k: int|
                0 <= k < pool.files@.len() ==> {
                    &&& (#[trigger] pool.files@[k]).name == old(pool).files@[k].name
                    &&& pool.files@[k].package == old(pool).files@[k].package
                    &&& pool.files@[k].syntax == old(pool).files@[k].syntax
                    &&& pool.files@[k].messages == old(pool).files@[k].messages
                    &&& pool.files@[k].enums == old(pool).files@[k].enums
                    &&& pool.files@[k].proto == old(pool).files@[k].proto
                },
            old(pool).services@.len() <= pool.services@.len(),
            pool.services@.take(old(pool).services@.len() as int) == old(pool).services@,
            old(pool).service_names@.len() <= pool.service_names@.len(),
            pool.service_names@.take(old(pool).service_names@.len() as int)
                == old(pool).service_names@,
        decreases pool.files@.len() - fi,
    {
        let nsvc = pool.files[fi].proto.service.len();
        proof {
            if services_registrable(old(pool), first as int) {
                assert(old(pool).files@[fi as int].proto.service@.len() <= 0xffff_ffff);
            }
        }
        if nsvc > 0xffff_ffff {
            return Err(DescriptorError::Validation("too many services in file".to_owned()));
        }
        let mut indices: Vec<u32> = Vec::new();
        let mut sv: usize = 0;
        while sv < nsvc
            invariant
                sv <= nsvc == pool.files@[fi as int].proto.service@.len(),
                fi < pool.files@.len(),
                pool.wf(),
                pool.file_names@ == old(pool).file_names@,
                pool.names@ == old(pool).names@,
                pool.enums@ == old(pool).enums@,
                pool.messages@ == old(pool).messages@,
                pool.files@.len() == old(pool).files@.len(),
                pool.files@.take(first as int) == old(pool).files@.take(first as int),
                forall|k: int|
                    0 <= k < pool.files@.len() ==> {
                        &&& (#[trigger] pool.files@[k]).name == old(pool).files@[k].name
                        &&& pool.files@[k].package == old(pool).files@[k].package
                        &&& pool.files@[k].syntax == old(pool).files@[k].syntax
                    &&& pool.files@[k].syntax == old(pool).files@[k].syntax
                        &&& pool.files@[k].messages == old(pool).files@[k].messages
                        &&& pool.files@[k].enums == old(pool).files@[k].enums
                        &&& pool.files@[k].proto == old(pool).files@[k].proto
                    },
                old(pool).services@.len() <= pool.services@.len(),
                pool.services@.take(old(pool).services@.len() as int) == old(pool).services@,
                old(pool).service_names@.len() <= pool.service_names@.len(),
                pool.service_names@.take(old(pool).service_names@.len() as int)
                    == old(pool).service_names@,
                forall|j: int| 0 <= j < indices@.len() ==> #[trigger] indices@[j] < pool.services@.len(),
                first <= fi,
                services_registrable(old(pool), first as int) ==> pool.services@.len() == old(pool).services@.len() + svc_count(
                    old(pool).files@,
                    first as int,
                    fi as int,
                ) + sv,
                services_registrable(old(pool), first as int) ==> forall|x: Seq<char>|
                    #[trigger] table_get(pool.service_names@, x) is Some ==> table_get(
                        old(pool).service_names@,
                        x,
                    ) is Some || svc_done(old(pool), first as int, fi as int, sv as int, x),
            decreases nsvc - sv,
        {
            let ghost fe = old(pool).files@[fi as int];
            proof {
                if services_registrable(old(pool), first as int) {
                    let sp = fe.proto.service@[sv as int];
                    assert(service_resolves(old(pool).names@, sp));
                    assert forall|k: int| 0 <= k < sp.method@.len() implies (#[trigger] sp.method@[k]).name is Some
                        && spec_method_type(pool, spec_join(fe.package@, sp.name->0@), sp.method@[k].input_type)
                        is Some && spec_method_type(pool, spec_join(fe.package@, sp.name->0@), sp.method@[k].output_type)
                        is Some by {
                        assert(absolute_message(old(pool).names@, sp.method@[k].input_type));
                        assert(absolute_message(old(pool).names@, sp.method@[k].output_type));
                    }
                    assert(service_buildable(pool, &sp, fe.package@));
                }
            }
            let entry = match build_service(
                pool,
                &pool.files[fi].proto.service[sv],
                &pool.files[fi].package,
                fi as u32,
                sv as u32,
            ) {
                Ok(e) => e,
                Err(e) => {
                    return Err(e);
                },
            };
            proof {
                if services_registrable(old(pool), first as int) {
                    let x = entry.full_name@;
                    assert(x == svc_full(fe, sv as int));
                    assert(table_get(old(pool).service_names@, svc_full(old(pool).files@[fi as int], sv as int)) is None);
                    if table_get(pool.service_names@, x) is Some {
                        assert(svc_done(old(pool), first as int, fi as int, sv as int, x));
                        let (k, j) = choose|k: int, j: int|
                            first <= k <= fi && 0 <= j < old(pool).files@[k].proto.service@.len() && (k < fi
                                || j < sv) && #[trigger] svc_full(old(pool).files@[k], j) == x;
                        assert(svc_full(old(pool).files@[k], j) != svc_full(old(pool).files@[fi as int], sv as int));
                    }
                    lemma_svc_count_split(old(pool).files@, first as int, fi as int, old(pool).files@.len() as int);
                    assert(svc_count(old(pool).files@, fi as int, old(pool).files@.len() as int)
                        == nsvc + svc_count(old(pool).files@, fi + 1, old(pool).files@.len() as int));
                }
            }
            if table_find(&pool.service_names, &entry.full_name).is_some() {
                return Err(DescriptorError::DuplicateType(entry.full_name));
            }
            if pool.services.len() >= 0xffff_ffff {
                return Err(DescriptorError::Validation("too many services in pool".to_owned()));
            }
            let si = pool.services.len() as u32;
            let ghost before = *pool;
            let ghost xf = entry.full_name@;
            proof {
                assert forall|x: Seq<char>|
                    #[trigger] table_get(before.service_names@.push((entry.full_name, si)), x) is Some implies (
                    table_get(before.service_names@, x) is Some || x == xf) by {
                    lemma_table_get_push(before.service_names@, entry.full_name, si, x);
                }
            }
            pool.service_names.push((entry.full_name.clone(), si));
            pool.services.push(entry);
            indices.push(si);
            proof {
                assert(pool.services@.take(old(pool).services@.len() as int) =~= before.services@.take(
                    old(pool).services@.len() as int,
                ));
                assert(pool.service_names@.take(old(pool).service_names@.len() as int)
                    =~= before.service_names@.take(old(pool).service_names@.len() as int));
                assert forall|k: int| 0 <= k < pool.services@.len() implies (
                #[trigger] pool.services@[k]).wf_in(pool.files@.len(), pool.messages@.len()) by {
                    if k < before.services@.len() {
                        assert(pool.services@[k] == before.services@[k]);
                    }
                }
                assert forall|k: int| 0 <= k < pool.files@.len() implies (
                #[trigger] pool.files@[k]).wf_in(
                    pool.messages@.len(),
                    pool.enums@.len(),
                    pool.services@.len(),
                ) by {
                    assert(before.files@[k].wf_in(
                        before.messages@.len(),
                        before.enums@.len(),
                        before.services@.len(),
                    ));
                }
                assert forall|k: int| 0 <= k < pool.service_names@.len() implies #[trigger] pool.service_names@[k].1
                    < pool.services@.len() by {
                    if k < before.service_names@.len() {
                        assert(pool.service_names@[k] == before.service_names@[k]);
                    }
                }
            }
            sv = sv + 1;
        }
        proof {
            if services_registrable(old(pool), first as int) {
                lemma_svc_count_split(old(pool).files@, first as int, fi as int, fi + 1);
                assert(svc_count(old(pool).files@, fi + 1, fi + 1) == 0);
                assert(pool.files@[fi as int].proto == old(pool).files@[fi as int].proto);
                assert(svc_count(old(pool).files@, fi as int, fi + 1) == nsvc);
                assert forall|x: Seq<char>|
                    #[trigger] table_get(pool.service_names@, x) is Some implies table_get(
                        old(pool).service_names@,
                        x,
                    ) is Some || svc_done(old(pool), first as int, fi + 1, 0, x) by {
                    if table_get(old(pool).service_names@, x) is None {
                        assert(svc_done(old(pool), first as int, fi as int, nsvc as int, x));
                        let (k, j) = choose|k: int, j: int|
                            first <= k <= fi && 0 <= j < old(pool).files@[k].proto.service@.len() && (k < fi
                                || j < nsvc) && #[trigger] svc_full(old(pool).files@[k], j) == x;
                        assert(svc_full(old(pool).files@[k], j) == x);
                    }
                }
            }
        }
        let ghost before = *pool;
        pool.files[fi].services = indices;
        proof {
            assert(pool.files@ =~= before.files@.update(fi as int, pool.files@[fi as int]));
            assert(pool.files@.take(first as int) =~= before.files@.take(first as int));
            assert forall|k: int| 0 <= k < pool.files@.len() implies (#[trigger] pool.files@[k]).wf_in(
                pool.messages@.len(),
                pool.enums@.len(),
                pool.services@.len(),
            ) by {
                assert(before.files@[k].wf_in(
                    before.messages@.len(),
                    before.enums@.len(),
                    before.services@.len(),
                ));
            }
            assert forall|k: int| 0 <= k < pool.messages@.len() implies (#[trigger] pool.messages@[k]).wf_in(
                pool.files@.len(),
                pool.messages@.len(),
                pool.enums@.len(),
            ) by {
                assert(before.messages@[k].wf_in(
                    before.files@.len(),
                    before.messages@.len(),
                    before.enums@.len(),
                ));
            }
            assert forall|k: int| 0 <= k < pool.enums@.len() implies (#[trigger] pool.enums@[k]).wf_in(
                pool.files@.len(),
                pool.messages@.len(),
            ) by {
                assert(before.enums@[k].wf_in(before.files@.len(), before.messages@.len()));
            }
            assert forall|k: int| 0 <= k < pool.services@.len() implies (#[trigger] pool.services@[k]).wf_in(
                pool.files@.len(),
                pool.messages@.len(),
            ) by {
                assert(before.services@[k].wf_in(before.files@.len(), before.messages@.len()));
            }
        }
        fi = fi + 1;
    }
    Ok(())
}


/// A method type the set accepts is a message the pool binds, once the
/// pool binds the set's declarations and extends `names`.
proof fn lemma_method_target(
    pool_names: Seq<(String, Definition)>,
    names: Seq<(String, Definition)>,
    files: Seq<FileDescriptorProto>,
    t: Option<String>,
)
    requires
        method_target(names, files, t),
        forall|i: int| 0 <= i < files.len() ==> file_names_bound(pool_names, #[trigger] files[i]),
        names.len() <= pool_names.len(),
        pool_names.take(names.len() as int) == names,
    ensures
        absolute_message(pool_names, t),
{
    let x = t->0@.drop_first();
    if set_declares_message(files, x) {
        let (i, mm, q) = choose|i: int, mm: int, q: Seq<u32>|
            0 <= i < files.len() && 0 <= mm < files[i].message_type@.len() && #[trigger] descend(
                files[i].message_type@[mm],
                q,
            ) is Some && desc_name(files[i].message_type@[mm], file_scope(files[i]), q) == x;
        assert(file_names_bound(pool_names, files[i]));
        assert(names_bound(pool_names, files[i].message_type@[mm], file_scope(files[i])));
    } else {
        lemma_table_prefix(names, pool_names, x);
    }
}

/// Counting the services of the file entries that hold the set counts the
/// set's services.
proof fn lemma_svc_count_set(
    entries: Seq<FileEntry>,
    first: int,
    files: Seq<FileDescriptorProto>,
    a: int,
)
    requires
        0 <= a <= files.len(),
        0 <= first,
        entries.len() == first + files.len(),
        forall|i: int| 0 <= i < files.len() ==> *(#[trigger] entries[first + i]).proto == files[i],
    ensures
        svc_count(entries, first + a, first + files.len()) == set_service_count(files, a, files.len() as int),
    decreases files.len() - a,
{
    if a < files.len() {
        lemma_svc_count_set(entries, first, files, a + 1);
        assert(*entries[first + a].proto == files[a]);
    }
}

#[verifier::loop_isolation(false)]
fn ingest_passes(pool: &mut PoolInner, fds: FileDescriptorSet) -> (r: Result<(), DescriptorError>)
    requires
        old(pool).wf(),
    ensures
        grows(old(pool), final(pool)),
        r is Ok ==> final(pool).wf(),
        r is Ok ==> final(pool).files@.len() == old(pool).files@.len() + fds.file@.len(),
        r is Ok ==> forall|i: int|
            0 <= i < fds.file@.len() ==> file_registered(
                final(pool),
                old(pool).files@.len() + i,
                &#[trigger] fds.file@[i],
            ),
        r is Ok ==> forall|e: int|
            old(pool).enums@.len() <= e < final(pool).enums@.len() ==> spec_enum_ok(final(pool), e),
        r is Ok ==> set_registrable(old(pool), fds.file@),
        (set_registrable(old(pool), fds.file@) && set_targets_resolve(old(pool).names@, fds.file@)
            && set_services_ok(
            old(pool).names@,
            old(pool).service_names@,
            old(pool).services@.len(),
            fds.file@,
        ) && forall|i: int| 0 <= i < fds.file@.len() ==> plain_file(#[trigger] fds.file@[i]))
            ==> r is Ok,
        r is Ok ==> forall|i: int|
            0 <= i < fds.file@.len() ==> file_names_bound(final(pool).names@, #[trigger] fds.file@[i]),
        r is Ok ==> forall|k: int|
            old(pool).names@.len() <= k < final(pool).names@.len() ==> name_from_set(
                #[trigger] final(pool).names@[k],
                fds.file@,
            ),
        r is Ok ==> set_targets_resolve(old(pool).names@, fds.file@),
        r is Ok ==> set_shapes_ok(fds.file@),
        r is Ok ==> forall|k: int|
            old(pool).messages@.len() <= k < final(pool).messages@.len() ==> #[trigger] message_resolved(
                final(pool),
                k,
            ),
{
    let first_file = pool.files.len();
    let first_message = pool.messages.len();
    let first_enum = pool.enums.len();
    let ghost p0 = *pool;
    let ghost files = fds.file@;
    match register_files(pool, fds.file) {
        Ok(()) => {},
        Err(e) => {
            return Err(e);
        },
    }
    let ghost p1 = *pool;
    proof {
        if set_registrable(&p0, files) && set_targets_resolve(p0.names@, files) && forall|i: int|
            0 <= i < files.len() ==> plain_file(#[trigger] files[i]) {
            assert forall|k: int| first_message <= k < p1.messages@.len() implies #[trigger] message_resolvable(
                &p1,
                k,
            ) by {
                let e = p1.messages@[k];
                assert(msg_from_set(e, files, p0.files@.len() as int));
                let i = e.file - p0.files@.len();
                assert(file_registered(&p1, p0.files@.len() + i, &files[i]));
                let file = p1.files@[e.file as int];
                assert(*file.proto == files[i]);
                assert(plain_file(files[i]));
                let q = spec_message_proto(&files[i], e.proto_path@)->0;
                assert(spec_message_proto(&files[i], e.proto_path@) is Some);
                assert(plain_message(q, file_is_proto3(files[i])));
                assert((file.syntax@ == proto3_chars()) == file_is_proto3(files[i]));
                assert(e.full_name@ == msg_scope(files[i], e.proto_path@));
                assert forall|kk: int| 0 <= kk < q.field@.len() implies field_target_ok(
                    p0.names@,
                    files,
                    e.full_name@,
                    #[trigger] q.field@[kk],
                ) by {
                    assert(spec_message_proto(&files[i], e.proto_path@)->0.field@[kk] == q.field@[kk]);
                }
                lemma_plain_resolvable(&p1, p0.names@, files, e.full_name@, file.syntax@ == proto3_chars(), q);
            }
        }
    }
    let r2 = resolve_messages_from(pool, first_message);
    proof {
        assert(pool.messages@.take(first_message as int) =~= p1.messages@.take(
            first_message as int,
        ));
        assert(p1.messages@.take(first_message as int) =~= p0.messages@);
        assert(pool.files@.take(p0.files@.len() as int) =~= p1.files@.take(p0.files@.len() as int));
        assert(pool.file_names@.take(p0.file_names@.len() as int) =~= p1.file_names@.take(
            p0.file_names@.len() as int,
        ));
        assert(pool.services@.take(p0.services@.len() as int) =~= p1.services@.take(
            p0.services@.len() as int,
        ));
        assert(pool.service_names@.take(p0.service_names@.len() as int) =~= p1.service_names@.take(
            p0.service_names@.len() as int,
        ));
        assert(pool.enums@.take(p0.enums@.len() as int) =~= p1.enums@.take(p0.enums@.len() as int));
        assert(pool.names@.take(p0.names@.len() as int) =~= p1.names@.take(p0.names@.len() as int));
        assert(grows(&p0, pool));
    }
    match r2 {
        Ok(()) => {},
        Err(e) => {
            return Err(e);
        },
    }
    proof {
        if forall|i: int| 0 <= i < files.len() ==> plain_file(#[trigger] files[i]) {
            assert forall|e: int| first_enum <= e < pool.enums@.len() implies spec_enum_ok(pool, e) by {
                let en = pool.enums@[e];
                assert(en == p1.enums@[e]);
                assert(enum_zero_from_set(p1.enums@[e], files, p0.files@.len() as int));
                let i = en.file - p0.files@.len();
                assert(file_registered(&p1, p0.files@.len() + i, &files[i]));
                assert(plain_file(files[i]));
                assert(pool.files@[en.file as int].syntax == p1.files@[en.file as int].syntax);
            }
        }
    }
    match validate_enums_from(pool, first_enum) {
        Ok(()) => {},
        Err(e) => {
            return Err(e);
        },
    }
    let ghost p2 = *pool;
    proof {
        if set_registrable(&p0, files) && set_services_ok(
            p0.names@,
            p0.service_names@,
            p0.services@.len(),
            files,
        ) {
            let f0 = first_file as int;
            assert(p2.files@ == p1.files@);
            assert forall|i: int| 0 <= i < files.len() implies *(#[trigger] p2.files@[f0 + i]).proto == files[i]
                && p2.files@[f0 + i].package@ == file_scope(files[i]) by {
                assert(file_registered(&p1, p0.files@.len() + i, &files[i]));
            }
            assert(p2.names@.take(p0.names@.len() as int) == p0.names@);
            assert forall|k: int, j: int|
                first_file <= k < p2.files@.len() && 0 <= j < p2.files@[k].proto.service@.len()
                    implies service_resolves(p2.names@, #[trigger] p2.files@[k].proto.service@[j]) by {
                let i = k - f0;
                assert(*p2.files@[f0 + i].proto == files[i]);
                let sp = files[i].service@[j];
                assert(service_ok(p0.names@, files, sp));
                assert forall|m: int| 0 <= m < sp.method@.len() implies {
                    &&& (#[trigger] sp.method@[m]).name is Some
                    &&& absolute_message(p2.names@, sp.method@[m].input_type)
                    &&& absolute_message(p2.names@, sp.method@[m].output_type)
                } by {
                    lemma_method_target(p2.names@, p0.names@, files, sp.method@[m].input_type);
                    lemma_method_target(p2.names@, p0.names@, files, sp.method@[m].output_type);
                }
            }
            assert forall|k: int| first_file <= k < p2.files@.len() implies (
            #[trigger] p2.files@[k]).proto.service@.len() <= 0xffff_ffff by {
                assert(*p2.files@[f0 + (k - f0)].proto == files[k - f0]);
            }
            assert forall|k: int, j: int|
                first_file <= k < p2.files@.len() && 0 <= j < p2.files@[k].proto.service@.len()
                    implies table_get(p2.service_names@, #[trigger] svc_full(p2.files@[k], j)) is None by {
                let i = k - f0;
                assert(*p2.files@[f0 + i].proto == files[i]);
                assert(svc_full(p2.files@[k], j) == service_name_of(files[i], j));
            }
            assert forall|k1: int, j1: int, k2: int, j2: int|
                first_file <= k1 < p2.files@.len() && 0 <= j1 < p2.files@[k1].proto.service@.len()
                    && first_file <= k2 < p2.files@.len() && 0 <= j2 < p2.files@[k2].proto.service@.len()
                    && (k1 != k2 || j1 != j2) implies #[trigger] svc_full(p2.files@[k1], j1)
                != #[trigger] svc_full(p2.files@[k2], j2) by {
                assert(*p2.files@[f0 + (k1 - f0)].proto == files[k1 - f0]);
                assert(*p2.files@[f0 + (k2 - f0)].proto == files[k2 - f0]);
                assert(svc_full(p2.files@[k1], j1) == service_name_of(files[k1 - f0], j1));
                assert(svc_full(p2.files@[k2], j2) == service_name_of(files[k2 - f0], j2));
            }
            lemma_svc_count_set(p2.files@, f0, files, 0);
            assert(services_registrable(&p2, f0));
        }
    }
    let r3 = register_services_from(pool, first_file);
    proof {
        assert(pool.files@.take(p0.files@.len() as int) =~= p2.files@.take(p0.files@.len() as int));
        assert(pool.services@.take(p0.services@.len() as int) =~= p2.services@.take(
            p0.services@.len() as int,
        ));
        assert(pool.service_names@.take(p0.service_names@.len() as int) =~= p2.service_names@.take(
            p0.service_names@.len() as int,
        ));
        assert(grows(&p0, pool));
    }
    match r3 {
        Ok(()) => {},
        Err(e) => {
            return Err(e);
        },
    }
    proof {
        assert forall|i: int| 0 <= i < files.len() implies file_registered(
            pool,
            p0.files@.len() + i,
            &#[trigger] files[i],
        ) by {
            assert(file_registered(&p1, p0.files@.len() + i, &files[i]));
        }
        assert forall|e: int| p0.enums@.len() <= e < pool.enums@.len() implies spec_enum_ok(pool, e) by {
            assert(spec_enum_ok(&p2, e));
            assert(pool.files@[pool.enums@[e].file as int].syntax == p2.files@[pool.enums@[e].file as int].syntax);
        }
        assert forall|k: int| p0.messages@.len() <= k < pool.messages@.len() implies #[trigger] message_resolved(
            pool,
            k,
        ) by {
            assert(message_resolved(&p2, k));
            let m = p2.messages@[k];
            assert(pool.messages@[k] == m);
            let f = p2.files@[m.file as int];
            assert(pool.files@[m.file as int].proto == f.proto);
            assert(pool.files@[m.file as int].syntax == f.syntax);
            lemma_fields_resolved_frame(
                &p2,
                pool,
                m.full_name@,
                f.syntax@ == proto3_chars(),
                &spec_message_proto(&f.proto, m.proto_path@)->0,
                m.fields@,
                m.oneofs@,
            );
        }
        let n0 = p0.files@.len();
        assert(p1.names@.take(p0.names@.len() as int) == p0.names@);
        assert forall|i: int, path: Seq<u32>, k: int|
            0 <= i < files.len() && spec_message_proto(&files[i], path) is Some && 0 <= k
                < spec_message_proto(&files[i], path)->0.field@.len() implies field_target_ok(
            p0.names@,
            files,
            msg_scope(files[i], path),
            #[trigger] spec_message_proto(&files[i], path)->0.field@[k],
        ) by {
            assert(has_entry(p1.messages@, p0.messages@.len() as int, (n0 + i) as u32, path));
            reveal(has_entry);
            let j = choose|j: int|
                p0.messages@.len() <= j < p1.messages@.len() && (#[trigger] p1.messages@[j]).file == (n0
                    + i) as u32 && p1.messages@[j].proto_path@ == path;
            assert(message_resolvable(&p1, j));
            let e = p1.messages@[j];
            assert(msg_from_set(e, files, n0 as int));
            assert(file_registered(&p1, n0 + i, &files[i]));
            assert(e.file == n0 + i);
            let f = spec_message_proto(&files[i], path)->0.field@[k];
            assert(spec_field_ok(
                &p1,
                e.full_name@,
                p1.files@[e.file as int].syntax@ == proto3_chars(),
                &f,
            ));
            lemma_resolved_target_ok(&p1, p0.names@, files, e.full_name@, f);
        }
        assert forall|i: int, path: Seq<u32>|
            0 <= i < files.len() && #[trigger] spec_message_proto(&files[i], path) is Some
                implies decl_shape_ok(spec_message_proto(&files[i], path)->0, file_is_proto3(files[i])) by {
            assert(has_entry(p1.messages@, p0.messages@.len() as int, (n0 + i) as u32, path));
            reveal(has_entry);
            let j = choose|j: int|
                p0.messages@.len() <= j < p1.messages@.len() && (#[trigger] p1.messages@[j]).file == (n0
                    + i) as u32 && p1.messages@[j].proto_path@ == path;
            assert(message_resolvable(&p1, j));
            let e = p1.messages@[j];
            assert(file_registered(&p1, n0 + i, &files[i]));
            assert(e.file == n0 + i);
            let m = spec_message_proto(&files[i], path)->0;
            let proto3 = p1.files@[e.file as int].syntax@ == proto3_chars();
            assert(proto3 == file_is_proto3(files[i]));
            assert(fields_resolvable(&p1, e.full_name@, proto3, &m));
            assert forall|k: int| 0 <= k < m.field@.len() implies {
                &&& (#[trigger] m.field@[k]).name is Some
                &&& m.field@[k].number is Some
                &&& field_number_valid(m.field@[k].number->0 as int)
                &&& !(proto3 && spec_cardinality(m.field@[k].label) == Cardinality::Required)
            } by {
                assert(spec_field_ok(&p1, e.full_name@, proto3, &m.field@[k]));
            }
        }
    }
    Ok(())
}


/// Add every file of `fds` to the pool: register all names first, then
/// resolve fields, check enums and register services. On error the pool
/// is left exactly as it was.
pub fn ingest_file_descriptor_set(pool: &mut PoolInner, fds: FileDescriptorSet) -> (r: Result<
    (),
    DescriptorError,
>)
    requires
        old(pool).wf(),
    ensures
        final(pool).wf(),
        r is Err ==> same_contents(old(pool), final(pool)),
        r is Ok ==> grows(old(pool), final(pool)),
        r is Ok ==> final(pool).files@.len() == old(pool).files@.len() + fds.file@.len(),
        r is Ok ==> forall|i: int|
            0 <= i < fds.file@.len() ==> file_registered(
                final(pool),
                old(pool).files@.len() + i,
                &#[trigger] fds.file@[i],
            ),
        r is Ok ==> forall|e: int|
            old(pool).enums@.len() <= e < final(pool).enums@.len() ==> spec_enum_ok(final(pool), e),
        !set_registrable(old(pool), fds.file@) ==> r is Err,
        (set_registrable(old(pool), fds.file@) && set_targets_resolve(old(pool).names@, fds.file@)
            && set_services_ok(
            old(pool).names@,
            old(pool).service_names@,
            old(pool).services@.len(),
            fds.file@,
        ) && forall|i: int| 0 <= i < fds.file@.len() ==> plain_file(#[trigger] fds.file@[i]))
            ==> r is Ok,
        r is Ok ==> forall|i: int|
            0 <= i < fds.file@.len() ==> file_names_bound(final(pool).names@, #[trigger] fds.file@[i]),
        r is Ok ==> forall|k: int|
            old(pool).names@.len() <= k < final(pool).names@.len() ==> name_from_set(
                #[trigger] final(pool).names@[k],
                fds.file@,
            ),
        r is Ok ==> set_targets_resolve(old(pool).names@, fds.file@),
        r is Ok ==> set_shapes_ok(fds.file@),
        r is Ok ==> forall|k: int|
            old(pool).messages@.len() <= k < final(pool).messages@.len() ==> #[trigger] message_resolved(
                final(pool),
                k,
            ),
{
    let nf = pool.files.len();
    let nfn = pool.file_names.len();
    let ns = pool.services.len();
    let nsn = pool.service_names.len();
    let nm = pool.messages.len();
    let ne = pool.enums.len();
    let nn = pool.names.len();
    let r = ingest_passes(pool, fds);
    if r.is_err() {
        pool.files.truncate(nf);
        pool.file_names.truncate(nfn);
        pool.services.truncate(ns);
        pool.service_names.truncate(nsn);
        pool.messages.truncate(nm);
        pool.enums.truncate(ne);
        pool.names.truncate(nn);
        proof {
            assert(pool.files@ =~= old(pool).files@);
            assert(pool.file_names@ =~= old(pool).file_names@);
            assert(pool.services@ =~= old(pool).services@);
            assert(pool.service_names@ =~= old(pool).service_names@);
            assert(pool.messages@ =~= old(pool).messages@);
            assert(pool.enums@ =~= old(pool).enums@);
            assert(pool.names@ =~= old(pool).names@);
        }
    }
    r
}

} // verus!
