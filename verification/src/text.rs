//! Character-level helpers shared by the naming, escaping and parsing code.

use vstd::prelude::*;
use vstd::utf8::{decode_utf8, valid_utf8};

verus! {

/// `String::push` appends one character to the end of the string.
pub assume_specification[ std::string::String::push ](s: &mut std::string::String, ch: char)
    ensures
        final(s)@ == old(s)@.push(ch),
;

/// `String::push_str` appends the characters of `t` to the string.
pub assume_specification[ std::string::String::push_str ](s: &mut std::string::String, t: &str)
    ensures
        final(s)@ == old(s)@ + t@,
;

/// The characters of `s` after a leading `.`, or all of them when there
/// is none.
pub open spec fn spec_strip_dot(s: Seq<char>) -> Seq<char> {
    if s.len() > 0 && s[0] == '.' {
        s.drop_first()
    } else {
        s
    }
}

/// Copy `s`, dropping one leading `.` if present.
pub fn strip_leading_dot(s: &str) -> (r: String)
    ensures
        r@ == spec_strip_dot(s@),
{
    let cs = chars_of(s);
    if cs.len() > 0 && cs[0] == '.' {
        let mut out = String::new();
        let mut i: usize = 1;
        while i < cs.len()
            invariant
                1 <= i <= cs.len(),
                out@ == cs@.subrange(1, i as int),
            decreases cs.len() - i,
        {
            out.push(cs[i]);
            i = i + 1;
            assert(out@ == cs@.subrange(1, i as int));
        }
        assert(cs@.subrange(1, cs.len() as int) == cs@.drop_first());
        out
    } else {
        s.to_owned()
    }
}

/// `a + "." + b`, or `b` alone when `a` is empty (a dotted path join).
pub open spec fn spec_join(a: Seq<char>, b: Seq<char>) -> Seq<char> {
    if a.len() == 0 {
        b
    } else {
        a + seq!['.'] + b
    }
}

/// Join a scope and a name with a `.` (no dot for an empty scope).
pub fn join(a: &str, b: &str) -> (r: String)
    ensures
        r@ == spec_join(a@, b@),
{
    if a.is_empty() {
        b.to_owned()
    } else {
        let mut out = a.to_owned();
        out.push('.');
        out.push_str(b);
        out
    }
}

/// `a + "." + b`, always with the dot.
pub fn join_dot(a: &str, b: &str) -> (r: String)
    ensures
        r@ == a@ + seq!['.'] + b@,
{
    let mut out = a.to_owned();
    out.push('.');
    out.push_str(b);
    out
}

/// Collect the characters of `s` into a vector, in order.
pub fn chars_of(s: &str) -> (out: Vec<char>)
    ensures
        out@ == s@,
{
    let mut out: Vec<char> = Vec::new();
    for c in it: s.chars()
        invariant
            out@ == it.seq().take(it.index() as int),
            it.seq() == s@,
    {
        out.push(c);
    }
    out
}

/// Build a `String` from a sequence of characters.
pub fn string_of(cs: &Vec<char>) -> (out: String)
    ensures
        out@ == cs@,
{
    let mut out = String::new();
    let mut i: usize = 0;
    while i < cs.len()
        invariant
            i <= cs.len(),
            out@ == cs@.take(i as int),
        decreases cs.len() - i,
    {
        out.push(cs[i]);
        i = i + 1;
        assert(out@ == cs@.take(i as int));
    }
    assert(cs@.take(cs.len() as int) == cs@);
    out
}

/// The ASCII decimal digit for `d < 10`.
pub open spec fn digit_char(d: nat) -> char {
    (('0' as u32) + d) as char
}

/// Decimal digits of `v`, most significant first, no leading zeros.
pub open spec fn spec_decimal(v: nat) -> Seq<char>
    decreases v,
{
    if v < 10 {
        seq![digit_char(v)]
    } else {
        spec_decimal(v / 10).push(digit_char(v % 10))
    }
}

/// Decimal rendering of a signed value, `-` first for negatives.
pub open spec fn spec_decimal_int(v: int) -> Seq<char> {
    if v < 0 {
        seq!['-'] + spec_decimal((-v) as nat)
    } else {
        spec_decimal(v as nat)
    }
}

fn digit(d: u64) -> (c: char)
    requires
        d < 10,
    ensures
        c == digit_char(d as nat),
{
    let code: u32 = 48 + d as u32;
    proof {
        assert(('0' as u32) == 48);
    }
    let c = if d == 0 {
        '0'
    } else if d == 1 {
        '1'
    } else if d == 2 {
        '2'
    } else if d == 3 {
        '3'
    } else if d == 4 {
        '4'
    } else if d == 5 {
        '5'
    } else if d == 6 {
        '6'
    } else if d == 7 {
        '7'
    } else if d == 8 {
        '8'
    } else {
        '9'
    };
    assert(c as u32 == code);
    c
}

/// Append the decimal digits of `v`.
pub fn push_decimal(out: &mut String, v: u64)
    ensures
        final(out)@ == old(out)@ + spec_decimal(v as nat),
    decreases v,
{
    if v < 10 {
        out.push(digit(v));
        assert(spec_decimal(v as nat) =~= seq![digit_char(v as nat)]);
    } else {
        push_decimal(out, v / 10);
        out.push(digit(v % 10));
        assert(old(out)@ + spec_decimal(v as nat) =~= old(out)@ + spec_decimal((v / 10) as nat)
            + seq![digit_char((v % 10) as nat)]);
    }
}

/// Append the decimal rendering of a signed value.
pub fn push_decimal_i64(out: &mut String, v: i64)
    ensures
        final(out)@ == old(out)@ + spec_decimal_int(v as int),
{
    if v < 0 {
        out.push('-');
        let m: u64 = if v == i64::MIN {
            0x8000_0000_0000_0000u64
        } else {
            (-v) as u64
        };
        push_decimal(out, m);
        assert(final(out)@ =~= old(out)@ + spec_decimal_int(v as int));
    } else {
        push_decimal(out, v as u64);
    }
}

/// Decimal rendering of an unsigned value as a new string.
pub fn decimal(v: u64) -> (r: String)
    ensures
        r@ == spec_decimal(v as nat),
{
    let mut out = String::new();
    push_decimal(&mut out, v);
    assert(out@ =~= spec_decimal(v as nat));
    out
}

/// Decimal rendering of a signed value as a new string.
pub fn decimal_i64(v: i64) -> (r: String)
    ensures
        r@ == spec_decimal_int(v as int),
{
    let mut out = String::new();
    push_decimal_i64(&mut out, v);
    assert(out@ =~= spec_decimal_int(v as int));
    out
}

/// `std::string::FromUtf8Error`, carried through opaquely.
#[verifier::external_type_specification]
#[verifier::external_body]
pub struct ExFromUtf8Error(std::string::FromUtf8Error);

/// `String::from_utf8` succeeds exactly on valid UTF-8 and then holds the
/// decoded characters.
pub assume_specification[ std::string::String::from_utf8 ](vec: Vec<u8>) -> (r: Result<
    std::string::String,
    std::string::FromUtf8Error,
>)
    ensures
        r is Ok <==> valid_utf8(vec@),
        r matches Ok(s) ==> s@ == decode_utf8(vec@),
;

/// What `String::from_utf8_lossy` makes of a byte sequence.
pub uninterp spec fn utf8_lossy(b: Seq<u8>) -> Seq<char>;

/// `String::from_utf8_lossy`: decode UTF-8, replacing each invalid
/// sequence with U+FFFD.
#[verifier::external_body]
pub fn from_utf8_lossy(b: &[u8]) -> (r: String)
    ensures
        r@ == utf8_lossy(b@),
{
    String::from_utf8_lossy(b).into_owned()
}

/// Decode UTF-8 bytes, falling back to lossy decoding for invalid input.
pub open spec fn spec_utf8_or_lossy(b: Seq<u8>) -> Seq<char> {
    if valid_utf8(b) {
        decode_utf8(b)
    } else {
        utf8_lossy(b)
    }
}

/// Decode `bytes` as UTF-8, lossily when they are not valid.
pub fn utf8_or_lossy(bytes: Vec<u8>) -> (r: String)
    ensures
        r@ == spec_utf8_or_lossy(bytes@),
{
    let ghost b = bytes@;
    let copy = bytes.clone();
    match String::from_utf8(bytes) {
        Ok(s) => s,
        Err(_) => from_utf8_lossy(copy.as_slice()),
    }
}

} // verus!
