//! Name case conversions between proto field names and JSON keys.

use vstd::prelude::*;

use crate::pool_build::{ascii_lower, to_ascii_lower};
use crate::text::chars_of;

verus! {

/// What `char::to_uppercase` yields for `c` (Unicode case mapping, one
/// to three characters).
pub uninterp spec fn upper_of(c: char) -> Seq<char>;

/// What `char::to_lowercase` yields for `c` (Unicode case mapping).
pub uninterp spec fn lower_of(c: char) -> Seq<char>;

/// `char::to_uppercase`: the characters of the upper-case mapping of
/// `c`. For the ASCII letters `a`..=`z` that is the one ASCII capital;
/// every other ASCII character maps to itself.
#[verifier::external_body]
pub(crate) fn to_uppercase_chars(c: char) -> (r: Vec<char>)
    ensures
        r@ == upper_of(c),
        'a' <= c <= 'z' ==> r@ == seq![crate::pool_build::ascii_upper(c)],
        (c as u32) < 128 && !('a' <= c <= 'z') ==> r@ == seq![c],
{
    c.to_uppercase().collect()
}

/// `char::to_lowercase`: the characters of the lower-case mapping of
/// `c`. For the ASCII letters `A`..=`Z` that is the one ASCII small
/// letter; every other ASCII character maps to itself.
#[verifier::external_body]
pub(crate) fn to_lowercase_chars(c: char) -> (r: Vec<char>)
    ensures
        r@ == lower_of(c),
        'A' <= c <= 'Z' ==> r@ == seq![ascii_lower(c)],
        (c as u32) < 128 && !('A' <= c <= 'Z') ==> r@ == seq![c],
{
    c.to_lowercase().collect()
}

/// Append every character of `cs`.
pub(crate) fn push_chars(out: &mut String, cs: &Vec<char>)
    ensures
        final(out)@ == old(out)@ + cs@,
{
    let ghost start = out@;
    let mut i: usize = 0;
    while i < cs.len()
        invariant
            i <= cs@.len(),
            out@ == start + cs@.take(i as int),
        decreases cs@.len() - i,
    {
        out.push(cs[i]);
        i = i + 1;
        assert(out@ =~= start + cs@.take(i as int));
    }
    assert(cs@.take(cs@.len() as int) =~= cs@);
}

/// The upper-case mapping of `c`: for ASCII the capital of a small letter
/// and every other character itself, beyond ASCII [`upper_of`].
pub open spec fn upper_case(c: char) -> Seq<char> {
    if 'a' <= c <= 'z' {
        seq![crate::pool_build::ascii_upper(c)]
    } else if (c as u32) < 128 {
        seq![c]
    } else {
        upper_of(c)
    }
}

/// The lower-case mapping of `c`: for ASCII the small letter of a capital
/// and every other character itself, beyond ASCII [`lower_of`].
pub open spec fn lower_case(c: char) -> Seq<char> {
    if 'A' <= c <= 'Z' {
        seq![ascii_lower(c)]
    } else if (c as u32) < 128 {
        seq![c]
    } else {
        lower_of(c)
    }
}

/// lowerCamelCase of `snake_case` (or `Title_Case`): every `_` is dropped,
/// the character after it upper-cased, and a leading character
/// lower-cased.
pub open spec fn spec_lower_camel(s: Seq<char>, upper_next: bool, first: bool) -> Seq<char>
    decreases s.len(),
{
    if s.len() == 0 {
        seq![]
    } else if s[0] == '_' {
        spec_lower_camel(s.drop_first(), true, false)
    } else {
        (if upper_next {
            upper_case(s[0])
        } else if first {
            lower_case(s[0])
        } else {
            seq![s[0]]
        }) + spec_lower_camel(s.drop_first(), false, false)
    }
}

/// Convert `snake_case` (or `Title_Case`) to `lowerCamelCase`.
pub fn snake_to_lower_camel(input: &str) -> (r: String)
    ensures
        r@ == spec_lower_camel(input@, false, true),
{
    let cs = chars_of(input);
    let mut out = String::new();
    let mut upper_next = false;
    let mut i: usize = 0;
    assert(cs@.skip(0) =~= cs@);
    while i < cs.len()
        invariant
            i <= cs.len(),
            cs@ == input@,
            out@ + spec_lower_camel(cs@.skip(i as int), upper_next, i == 0) == spec_lower_camel(
                input@,
                false,
                true,
            ),
        decreases cs.len() - i,
    {
        let ch = cs[i];
        assert(cs@.skip(i as int).drop_first() =~= cs@.skip(i + 1));
        if ch == '_' {
            upper_next = true;
        } else {
            let ghost before = out@;
            let piece = if upper_next {
                to_uppercase_chars(ch)
            } else if i == 0 {
                to_lowercase_chars(ch)
            } else {
                let mut v: Vec<char> = Vec::new();
                v.push(ch);
                v
            };
            push_chars(&mut out, &piece);
            assert(out@ + spec_lower_camel(cs@.skip(i + 1), false, false) =~= before + (piece@
                + spec_lower_camel(cs@.skip(i + 1), false, false)));
            upper_next = false;
        }
        i = i + 1;
    }
    assert(spec_lower_camel(cs@.skip(i as int), upper_next, i == 0) =~= Seq::<char>::empty());
    assert(out@ + Seq::<char>::empty() =~= out@);
    out
}

/// snake_case of a lowerCamelCase name: each ASCII capital becomes `_`
/// and its small letter.
pub open spec fn spec_snake(s: Seq<char>) -> Seq<char>
    decreases s.len(),
{
    if s.len() == 0 {
        seq![]
    } else {
        (if 'A' <= s[0] <= 'Z' {
            seq!['_', ascii_lower(s[0])]
        } else {
            seq![s[0]]
        }) + spec_snake(s.drop_first())
    }
}

/// Convert `lowerCamelCase` to `snake_case`.
pub fn lower_camel_to_snake(input: &str) -> (r: String)
    ensures
        r@ == spec_snake(input@),
{
    let cs = chars_of(input);
    let mut out = String::new();
    let mut i: usize = 0;
    assert(cs@.skip(0) =~= cs@);
    while i < cs.len()
        invariant
            i <= cs.len(),
            cs@ == input@,
            out@ + spec_snake(cs@.skip(i as int)) == spec_snake(input@),
        decreases cs.len() - i,
    {
        let ch = cs[i];
        let ghost before = out@;
        assert(cs@.skip(i as int).drop_first() =~= cs@.skip(i + 1));
        if 'A' <= ch && ch <= 'Z' {
            out.push('_');
            out.push(to_ascii_lower(ch));
            assert(out@ =~= before + seq!['_', ascii_lower(ch)]);
        } else {
            out.push(ch);
            assert(out@ =~= before + seq![ch]);
        }
        i = i + 1;
    }
    assert(spec_snake(cs@.skip(i as int)) =~= Seq::<char>::empty());
    assert(out@ + Seq::<char>::empty() =~= out@);
    out
}

/// The fully-qualified names of the well-known types with special JSON
/// mappings.
pub open spec fn wkt_names() -> Seq<Seq<char>> {
    seq![
        "google.protobuf.Any"@,
        "google.protobuf.Timestamp"@,
        "google.protobuf.Duration"@,
        "google.protobuf.Struct"@,
        "google.protobuf.FloatValue"@,
        "google.protobuf.DoubleValue"@,
        "google.protobuf.Int32Value"@,
        "google.protobuf.Int64Value"@,
        "google.protobuf.UInt32Value"@,
        "google.protobuf.UInt64Value"@,
        "google.protobuf.BoolValue"@,
        "google.protobuf.StringValue"@,
        "google.protobuf.BytesValue"@,
        "google.protobuf.FieldMask"@,
        "google.protobuf.ListValue"@,
        "google.protobuf.Value"@,
        "google.protobuf.Empty"@,
    ]
}

/// Whether `full_name` is one of the well-known types.
pub fn is_well_known_type(full_name: &str) -> (r: bool)
    ensures
        r == wkt_names().contains(full_name@),
{
    let names: [&str; 17] = [
        "google.protobuf.Any",
        "google.protobuf.Timestamp",
        "google.protobuf.Duration",
        "google.protobuf.Struct",
        "google.protobuf.FloatValue",
        "google.protobuf.DoubleValue",
        "google.protobuf.Int32Value",
        "google.protobuf.Int64Value",
        "google.protobuf.UInt32Value",
        "google.protobuf.UInt64Value",
        "google.protobuf.BoolValue",
        "google.protobuf.StringValue",
        "google.protobuf.BytesValue",
        "google.protobuf.FieldMask",
        "google.protobuf.ListValue",
        "google.protobuf.Value",
        "google.protobuf.Empty",
    ];
    let key = full_name.to_owned();
    let mut i: usize = 0;
    while i < 17
        invariant
            i <= 17,
            key@ == full_name@,
            names@.len() == 17,
            forall|k: int| 0 <= k < 17 ==> #[trigger] names@[k]@ == wkt_names()[k],
            forall|k: int| 0 <= k < i ==> wkt_names()[k] != full_name@,
        decreases 17 - i,
    {
        if names[i].to_owned() == key {
            assert(wkt_names()[i as int] == full_name@);
            return true;
        }
        i = i + 1;
    }
    proof {
        assert forall|k: int| 0 <= k < wkt_names().len() implies wkt_names()[k] != full_name@ by {}
    }
    false
}

// ── laws ────────────────────────────────────────────────────────────────

/// Every character of `s` is ASCII and none is `_`.
pub open spec fn plain_ascii(s: Seq<char>) -> bool {
    forall|i: int| 0 <= i < s.len() ==> (#[trigger] s[i] as u32) < 128 && s[i] != '_'
}

/// `s` is a proto-style snake_case name: it starts with a small letter,
/// holds only small letters, digits and `_`, and each `_` is followed by a
/// small letter.
pub open spec fn proto_snake(s: Seq<char>) -> bool {
    &&& s.len() > 0
    &&& 'a' <= s[0] <= 'z'
    &&& snake_tail(s)
}

/// Small letters, digits and `_`, each `_` followed by a small letter.
pub open spec fn snake_tail(s: Seq<char>) -> bool {
    &&& forall|i: int|
        0 <= i < s.len() ==> ('a' <= #[trigger] s[i] <= 'z' || '0' <= s[i] <= '9' || s[i] == '_')
    &&& forall|i: int|
        0 <= i < s.len() && #[trigger] s[i] == '_' ==> i + 1 < s.len() && 'a' <= s[i + 1] <= 'z'
}

proof fn lemma_case_pair(c: char)
    requires
        'A' <= c <= 'Z',
    ensures
        'a' <= ascii_lower(c) <= 'z',
        upper_case(ascii_lower(c)) == seq![c],
{
}

proof fn lemma_case_pair_small(c: char)
    requires
        'a' <= c <= 'z',
    ensures
        'A' <= crate::pool_build::ascii_upper(c) <= 'Z',
        ascii_lower(crate::pool_build::ascii_upper(c)) == c,
{
}

proof fn lemma_camel_of_snake(t: Seq<char>, first: bool)
    requires
        plain_ascii(t),
    ensures
        spec_lower_camel(spec_snake(t), false, first) == t,
    decreases t.len(),
{
    if t.len() > 0 {
        let c = t[0];
        let rest = t.drop_first();
        assert(plain_ascii(rest)) by {
            assert forall|i: int| 0 <= i < rest.len() implies (#[trigger] rest[i] as u32) < 128
                && rest[i] != '_' by {
                assert(rest[i] == t[i + 1]);
            }
        }
        lemma_camel_of_snake(rest, false);
        let y = spec_snake(rest);
        assert((c as u32) < 128 && c != '_');
        if 'A' <= c <= 'Z' {
            lemma_case_pair(c);
            let l = ascii_lower(c);
            let z = seq!['_', l] + y;
            assert(spec_snake(t) == z);
            assert(z[0] == '_');
            assert(z.drop_first() =~= seq![l] + y);
            assert((seq![l] + y)[0] == l);
            assert((seq![l] + y).drop_first() =~= y);
            assert(spec_lower_camel(seq![l] + y, true, false) == upper_case(l) + spec_lower_camel(
                y,
                false,
                false,
            ));
            assert(t =~= seq![c] + rest);
        } else {
            let z = seq![c] + y;
            assert(spec_snake(t) == z);
            assert(z[0] == c);
            assert(z.drop_first() =~= y);
            assert(lower_case(c) == seq![c]);
            assert(t =~= seq![c] + rest);
        }
    }
}

/// lowerCamelCase to snake_case and back gives the name again, for every
/// name of ASCII characters without `_` (`"userId"` → `"user_id"` →
/// `"userId"`; `"Foo"` → `"_foo"` → `"Foo"`).
pub proof fn law_camel_snake_camel(s: Seq<char>)
    requires
        plain_ascii(s),
    ensures
        spec_lower_camel(spec_snake(s), false, true) == s,
{
    lemma_camel_of_snake(s, true);
}

proof fn lemma_snake_of_camel(t: Seq<char>, upper_next: bool, first: bool)
    requires
        snake_tail(t),
        upper_next ==> t.len() > 0 && 'a' <= t[0] <= 'z',
        first ==> t.len() > 0 && 'a' <= t[0] <= 'z',
    ensures
        spec_snake(spec_lower_camel(t, upper_next, first)) == (if upper_next {
            seq!['_'] + t
        } else {
            t
        }),
    decreases t.len(),
{
    if t.len() > 0 {
        let c = t[0];
        let rest = t.drop_first();
        assert(snake_tail(rest)) by {
            assert forall|i: int| 0 <= i < rest.len() implies ('a' <= #[trigger] rest[i] <= 'z' || '0'
                <= rest[i] <= '9' || rest[i] == '_') by {
                assert(rest[i] == t[i + 1]);
            }
            assert forall|i: int| 0 <= i < rest.len() && #[trigger] rest[i] == '_' implies i + 1
                < rest.len() && 'a' <= rest[i + 1] <= 'z' by {
                assert(rest[i] == t[i + 1]);
                assert(t[i + 1] == '_');
                assert(rest[i + 1] == t[i + 2]);
            }
        }
        assert(t =~= seq![c] + rest);
        if c == '_' {
            assert(t[0] == '_');
            assert(1 < t.len() && 'a' <= t[1] <= 'z');
            assert(rest[0] == t[1]);
            lemma_snake_of_camel(rest, true, false);
        } else {
            lemma_snake_of_camel(rest, false, false);
            let y = spec_lower_camel(rest, false, false);
            if upper_next {
                lemma_case_pair_small(c);
                let u = crate::pool_build::ascii_upper(c);
                assert(upper_case(c) == seq![u]);
                let z = seq![u] + y;
                assert(spec_lower_camel(t, upper_next, first) == z);
                assert(z[0] == u);
                assert(z.drop_first() =~= y);
                assert(spec_snake(z) == seq!['_', ascii_lower(u)] + spec_snake(y));
                assert(seq!['_', c] + rest =~= seq!['_'] + t);
            } else {
                assert(('a' <= c <= 'z' || '0' <= c <= '9'));
                assert(first ==> lower_case(c) == seq![c]);
                let z = seq![c] + y;
                assert(spec_lower_camel(t, upper_next, first) == z);
                assert(z[0] == c);
                assert(z.drop_first() =~= y);
                assert(spec_snake(z) == seq![c] + spec_snake(y));
            }
        }
    }
}

/// snake_case to lowerCamelCase and back gives the name again, for every
/// proto-style snake_case name (FieldMask paths survive the JSON
/// conversion: `"user_id"` → `"userId"` → `"user_id"`).
pub proof fn law_snake_camel_snake(s: Seq<char>)
    requires
        proto_snake(s),
    ensures
        spec_snake(spec_lower_camel(s, false, true)) == s,
{
    lemma_snake_of_camel(s, false, true);
}

proof fn lemma_json_name_is_camel(t: Seq<char>, upper_next: bool)
    ensures
        crate::pool_build::spec_json_name(t, upper_next) == spec_lower_camel(t, upper_next, false),
    decreases t.len(),
{
    if t.len() > 0 {
        lemma_json_name_is_camel(t.drop_first(), true);
        lemma_json_name_is_camel(t.drop_first(), false);
    }
}

/// The pool's default JSON name of a field agrees with the key conversion
/// of the JSON layer, for every name that is empty, starts with `_`, or
/// whose first character lower-cases to itself.
pub proof fn law_json_name_is_lower_camel(s: Seq<char>)
    requires
        s.len() == 0 || s[0] == '_' || lower_case(s[0]) == seq![s[0]],
    ensures
        crate::pool_build::spec_json_name(s, false) == spec_lower_camel(s, false, true),
{
    if s.len() > 0 {
        lemma_json_name_is_camel(s.drop_first(), true);
        lemma_json_name_is_camel(s.drop_first(), false);
    }
}

} // verus!
