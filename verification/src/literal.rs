//! Lexical helpers for protobuf literals: whitespace trimming, integer
//! literals in decimal / octal / hex, the float grammar, and C-style
//! escape sequences.

use vstd::prelude::*;
use vstd::string::StringSliceAdditionalSpecFns;
use vstd::utf8::{encode_scalar, is_scalar, valid_utf8};

use crate::pool_build::{ascii_lower, to_ascii_lower};
use crate::text::chars_of;

verus! {

// ── whitespace ──────────────────────────────────────────────────────────

/// Unicode `White_Space` characters.
pub open spec fn is_ws(c: char) -> bool {
    let v = c as u32;
    (0x09 <= v <= 0x0d) || v == 0x20 || v == 0x85 || v == 0xa0 || v == 0x1680 || (0x2000 <= v
        <= 0x200a) || v == 0x2028 || v == 0x2029 || v == 0x202f || v == 0x205f || v == 0x3000
}

pub fn is_whitespace(c: char) -> (r: bool)
    ensures
        r == is_ws(c),
{
    let v = c as u32;
    (0x09 <= v && v <= 0x0d) || v == 0x20 || v == 0x85 || v == 0xa0 || v == 0x1680 || (0x2000 <= v
        && v <= 0x200a) || v == 0x2028 || v == 0x2029 || v == 0x202f || v == 0x205f || v == 0x3000
}

/// Number of leading whitespace characters.
pub open spec fn ws_prefix(s: Seq<char>) -> nat
    decreases s.len(),
{
    if s.len() > 0 && is_ws(s[0]) {
        1 + ws_prefix(s.drop_first())
    } else {
        0
    }
}

/// Number of trailing whitespace characters.
pub open spec fn ws_suffix(s: Seq<char>) -> nat
    decreases s.len(),
{
    if s.len() > 0 && is_ws(s.last()) {
        1 + ws_suffix(s.drop_last())
    } else {
        0
    }
}

proof fn lemma_ws_prefix(s: Seq<char>)
    ensures
        ws_prefix(s) <= s.len(),
        forall|i: int| 0 <= i < ws_prefix(s) ==> is_ws(s[i]),
        ws_prefix(s) < s.len() ==> !is_ws(s[ws_prefix(s) as int]),
    decreases s.len(),
{
    if s.len() > 0 && is_ws(s[0]) {
        lemma_ws_prefix(s.drop_first());
        assert forall|i: int| 0 <= i < ws_prefix(s) implies is_ws(s[i]) by {
            if i > 0 {
                assert(s[i] == s.drop_first()[i - 1]);
            }
        }
    }
}

proof fn lemma_ws_suffix(s: Seq<char>)
    ensures
        ws_suffix(s) <= s.len(),
        forall|i: int| s.len() - ws_suffix(s) <= i < s.len() ==> is_ws(s[i]),
        ws_suffix(s) < s.len() ==> !is_ws(s[s.len() - ws_suffix(s) - 1]),
    decreases s.len(),
{
    if s.len() > 0 && is_ws(s.last()) {
        lemma_ws_suffix(s.drop_last());
        assert forall|i: int| s.len() - ws_suffix(s) <= i < s.len() implies is_ws(s[i]) by {
            if i < s.len() - 1 {
                assert(s[i] == s.drop_last()[i]);
            }
        }
        if ws_suffix(s) < s.len() {
            assert(s[s.len() - ws_suffix(s) - 1] == s.drop_last()[s.drop_last().len() - ws_suffix(
                s.drop_last(),
            ) - 1]);
        }
    }
}

/// `str::trim`: drop leading and trailing whitespace.
pub open spec fn spec_trim(s: Seq<char>) -> Seq<char> {
    let t = s.skip(ws_prefix(s) as int);
    t.take(t.len() - ws_suffix(t))
}

/// Trim whitespace from both ends of a character vector.
pub fn trim_chars(cs: &Vec<char>) -> (r: Vec<char>)
    ensures
        r@ == spec_trim(cs@),
{
    proof {
        lemma_ws_prefix(cs@);
    }
    let mut start: usize = 0;
    while start < cs.len() && is_whitespace(cs[start])
        invariant
            start <= cs.len(),
            start <= ws_prefix(cs@),
            forall|i: int| 0 <= i < ws_prefix(cs@) ==> is_ws(cs@[i]),
            ws_prefix(cs@) <= cs@.len(),
            ws_prefix(cs@) < cs@.len() ==> !is_ws(cs@[ws_prefix(cs@) as int]),
        decreases cs.len() - start,
    {
        start = start + 1;
    }
    assert(start == ws_prefix(cs@));
    let ghost t = cs@.skip(start as int);
    proof {
        lemma_ws_suffix(t);
    }
    let mut end: usize = cs.len();
    while end > start && is_whitespace(cs[end - 1])
        invariant
            start <= end <= cs.len(),
            t == cs@.skip(start as int),
            cs.len() - end <= ws_suffix(t),
            ws_suffix(t) <= t.len(),
            forall|i: int| t.len() - ws_suffix(t) <= i < t.len() ==> is_ws(t[i]),
            ws_suffix(t) < t.len() ==> !is_ws(t[t.len() - ws_suffix(t) - 1]),
        decreases end,
    {
        assert(cs@[end - 1] == t[end - 1 - start]);
        end = end - 1;
    }
    proof {
        if cs.len() - end < ws_suffix(t) {
            assert(t[end - start - 1] == cs@[end - 1]);
        }
    }
    let mut out: Vec<char> = Vec::new();
    let mut i = start;
    while i < end
        invariant
            start <= i <= end <= cs.len(),
            out@ == cs@.subrange(start as int, i as int),
        decreases end - i,
    {
        out.push(cs[i]);
        i = i + 1;
        assert(out@ =~= cs@.subrange(start as int, i as int));
    }
    assert(spec_trim(cs@) =~= cs@.subrange(start as int, end as int));
    out
}

// ── integers ────────────────────────────────────────────────────────────

/// Digit value of `c` in `radix` (2..=16), if it is a digit of that radix.
pub open spec fn digit_value(c: char, radix: nat) -> Option<nat> {
    let d: int = if '0' <= c && c <= '9' {
        c as int - '0' as int
    } else if 'a' <= c && c <= 'f' {
        c as int - 'a' as int + 10
    } else if 'A' <= c && c <= 'F' {
        c as int - 'A' as int + 10
    } else {
        100
    };
    if d < radix {
        Some(d as nat)
    } else {
        None
    }
}

pub fn digit_val(c: char, radix: u32) -> (r: Option<u32>)
    requires
        2 <= radix <= 16,
    ensures
        r matches Some(d) ==> digit_value(c, radix as nat) == Some(d as nat) && d < radix,
        r is None ==> digit_value(c, radix as nat) is None,
{
    let d: u32 = if '0' <= c && c <= '9' {
        (c as u32) - 48
    } else if 'a' <= c && c <= 'f' {
        (c as u32) - 97 + 10
    } else if 'A' <= c && c <= 'F' {
        (c as u32) - 65 + 10
    } else {
        100
    };
    if d < radix {
        Some(d)
    } else {
        None
    }
}

/// Value of a non-empty run of digits, if every character is a digit.
pub open spec fn digits_value(s: Seq<char>, radix: nat) -> Option<nat>
    decreases s.len(),
{
    if s.len() == 0 {
        Some(0)
    } else {
        match (digits_value(s.drop_last(), radix), digit_value(s.last(), radix)) {
            (Some(v), Some(d)) => Some(v * radix + d),
            _ => None,
        }
    }
}

/// `u64::from_str_radix`: an optional `+`, then at least one digit, and
/// the value must fit 64 bits.
pub open spec fn spec_from_str_radix(s: Seq<char>, radix: nat) -> Option<nat> {
    let body = if s.len() > 0 && s[0] == '+' {
        s.drop_first()
    } else {
        s
    };
    if body.len() == 0 {
        None
    } else {
        match digits_value(body, radix) {
            Some(v) => if v < 0x1_0000_0000_0000_0000 {
                Some(v)
            } else {
                None
            },
            None => None,
        }
    }
}

proof fn lemma_digits_monotone(s: Seq<char>, radix: nat, k: int)
    requires
        0 <= k <= s.len(),
        digits_value(s, radix) is Some,
        radix >= 2,
    ensures
        digits_value(s.take(k), radix) is Some,
        digits_value(s.take(k), radix)->0 <= digits_value(s, radix)->0,
    decreases s.len() - k,
{
    if k < s.len() {
        assert(s.drop_last().take(k) =~= s.take(k));
        lemma_digits_monotone(s.drop_last(), radix, k);
        let v = digits_value(s.drop_last(), radix)->0;
        assert(v <= v * radix) by (nonlinear_arith)
            requires
                radix >= 2,
        ;
    } else {
        assert(s.take(k) =~= s);
    }
}

/// `u64::from_str_radix` over a character vector slice `cs[start..]`.
pub fn from_str_radix(cs: &Vec<char>, start: usize, radix: u32) -> (r: Option<u64>)
    requires
        start <= cs@.len(),
        2 <= radix <= 16,
    ensures
        r matches Some(v) ==> spec_from_str_radix(cs@.skip(start as int), radix as nat) == Some(
            v as nat,
        ),
        r is None ==> spec_from_str_radix(cs@.skip(start as int), radix as nat) is None,
{
    let ghost s = cs@.skip(start as int);
    let mut i = start;
    if i < cs.len() && cs[i] == '+' {
        i = i + 1;
    }
    let ghost body = cs@.skip(i as int);
    assert(body =~= (if s.len() > 0 && s[0] == '+' {
        s.drop_first()
    } else {
        s
    }));
    if i == cs.len() {
        return None;
    }
    let mut acc: u64 = 0;
    let mut j = i;
    assert(body.take(0) =~= Seq::<char>::empty());
    while j < cs.len()
        invariant
            i <= j <= cs@.len(),
            i < cs@.len(),
            body == cs@.skip(i as int),
            s == cs@.skip(start as int),
            body == (if s.len() > 0 && s[0] == '+' {
                s.drop_first()
            } else {
                s
            }),
            2 <= radix <= 16,
            digits_value(body.take(j - i), radix as nat) == Some(acc as nat),
        decreases cs.len() - j,
    {
        assert(body.take(j - i + 1).drop_last() =~= body.take(j - i));
        assert(body.take(j - i + 1).last() == cs@[j as int]);
        match digit_val(cs[j], radix) {
            None => {
                proof {
                    assert(digits_value(body.take(j - i + 1), radix as nat) is None);
                    if digits_value(body, radix as nat) is Some {
                        lemma_digits_monotone(body, radix as nat, j - i + 1);
                    }
                }
                return None;
            },
            Some(d) => {
                let m = acc.checked_mul(radix as u64);
                match m {
                    None => {
                        proof {
                            assert(acc * radix + d >= 0x1_0000_0000_0000_0000) by (nonlinear_arith)
                                requires
                                    acc * radix > 0xffff_ffff_ffff_ffff,
                                    d >= 0,
                            ;
                            assert(digits_value(body.take(j - i + 1), radix as nat) == Some(
                                (acc * radix + d) as nat,
                            ));
                            if digits_value(body, radix as nat) is Some {
                                lemma_digits_monotone(body, radix as nat, j - i + 1);
                            }
                        }
                        return None;
                    },
                    Some(m) => {
                        let a = m.checked_add(d as u64);
                        match a {
                            None => {
                                proof {
                                    assert(digits_value(body.take(j - i + 1), radix as nat) == Some(
                                        (acc * radix + d) as nat,
                                    ));
                                    if digits_value(body, radix as nat) is Some {
                                        lemma_digits_monotone(body, radix as nat, j - i + 1);
                                    }
                                }
                                return None;
                            },
                            Some(a) => {
                                acc = a;
                            },
                        }
                    },
                }
            },
        }
        j = j + 1;
    }
    assert(body.take(j - i) =~= body);
    Some(acc)
}

/// Parse a decimal `i32` the way `str::parse::<i32>` does: an optional
/// sign, at least one digit, and the value in range.
pub open spec fn spec_parse_i32(s: Seq<char>) -> Option<int> {
    if s.len() > 0 && s[0] == '-' {
        let body = s.drop_first();
        if body.len() == 0 {
            None
        } else {
            match digits_value(body, 10) {
                Some(v) => if v <= 0x8000_0000 {
                    Some(-v)
                } else {
                    None
                },
                None => None,
            }
        }
    } else {
        match spec_from_str_radix(s, 10) {
            Some(v) => if v <= 0x7fff_ffff {
                Some(v as int)
            } else {
                None
            },
            None => None,
        }
    }
}

proof fn lemma_digits_bound(s: Seq<char>, radix: nat)
    requires
        radix >= 2,
    ensures
        digits_value(s, radix) is Some ==> s.len() == 0 || spec_from_str_radix(s, radix) is Some
            || digits_value(s, radix)->0 >= 0x1_0000_0000_0000_0000 || (s.len() > 0 && s[0] == '+'),
{
}

/// `str::parse::<i32>` over `cs[start..]`.
pub fn parse_i32(cs: &Vec<char>, start: usize) -> (r: Option<i32>)
    requires
        start <= cs@.len(),
    ensures
        r matches Some(v) ==> spec_parse_i32(cs@.skip(start as int)) == Some(v as int),
        r is None ==> spec_parse_i32(cs@.skip(start as int)) is None,
{
    let ghost s = cs@.skip(start as int);
    if start < cs.len() && cs[start] == '-' {
        assert(s.drop_first() =~= cs@.skip(start + 1));
        if start + 1 == cs.len() {
            return None;
        }
        let ghost body = cs@.skip(start + 1);
        if cs[start + 1] == '+' {
            proof {
                assert(digit_value(body[0], 10) is None);
                if digits_value(body, 10) is Some {
                    lemma_digits_monotone(body, 10, 1);
                    assert(body.take(1).drop_last() =~= Seq::<char>::empty());
                    assert(body.take(1).last() == body[0]);
                }
            }
            return None;
        }
        assert(!(body.len() > 0 && body[0] == '+'));
        match from_str_radix(cs, start + 1, 10) {
            Some(v) => {
                if v <= 0x8000_0000 {
                    Some((-(v as i64)) as i32)
                } else {
                    None
                }
            },
            None => {
                proof {
                    if digits_value(body, 10) is Some {
                        assert(digits_value(body, 10)->0 >= 0x1_0000_0000_0000_0000);
                    }
                }
                None
            },
        }
    } else {
        match from_str_radix(cs, start, 10) {
            Some(v) => {
                if v <= 0x7fff_ffff {
                    Some(v as i32)
                } else {
                    None
                }
            },
            None => None,
        }
    }
}

// ── floats ──────────────────────────────────────────────────────────────

/// Length of the longest prefix of ASCII decimal digits.
pub open spec fn digit_run(s: Seq<char>) -> nat
    decreases s.len(),
{
    if s.len() > 0 && '0' <= s[0] && s[0] <= '9' {
        1 + digit_run(s.drop_first())
    } else {
        0
    }
}

/// Case-insensitive ASCII equality of `s` with the lower-case word `w`.
pub open spec fn eq_ignore_case(s: Seq<char>, w: Seq<char>) -> bool {
    s.len() == w.len() && forall|i: int| 0 <= i < s.len() ==> ascii_lower(#[trigger] s[i]) == w[i]
}

/// The body of a decimal float after the optional exponent: the number is
/// `digits [. digits?]` or `. digits`, then optionally `e|E [+|-] digits`.
pub open spec fn float_decimal_ok(s: Seq<char>) -> bool {
    let a = digit_run(s);
    let after_int = s.skip(a as int);
    let (frac_ok, rest) = if after_int.len() > 0 && after_int[0] == '.' {
        let f = digit_run(after_int.drop_first());
        (a > 0 || f > 0, after_int.drop_first().skip(f as int))
    } else {
        (a > 0, after_int)
    };
    frac_ok && (rest.len() == 0 || ((rest[0] == 'e' || rest[0] == 'E') && {
        let e = rest.drop_first();
        let e2 = if e.len() > 0 && (e[0] == '+' || e[0] == '-') {
            e.drop_first()
        } else {
            e
        };
        e2.len() > 0 && digit_run(e2) == e2.len()
    }))
}

/// The grammar `str::parse::<f64>` accepts: an optional sign, then `inf`,
/// `infinity` or `nan` in any case, or a decimal number.
pub open spec fn spec_float_syntax(s: Seq<char>) -> bool {
    let body = if s.len() > 0 && (s[0] == '+' || s[0] == '-') {
        s.drop_first()
    } else {
        s
    };
    eq_ignore_case(body, seq!['i', 'n', 'f']) || eq_ignore_case(
        body,
        seq!['i', 'n', 'f', 'i', 'n', 'i', 't', 'y'],
    ) || eq_ignore_case(body, seq!['n', 'a', 'n']) || float_decimal_ok(body)
}

fn digit_run_at(cs: &Vec<char>, start: usize) -> (n: usize)
    requires
        start <= cs@.len(),
    ensures
        n == digit_run(cs@.skip(start as int)),
        start + n <= cs@.len(),
{
    let mut i = start;
    while i < cs.len() && '0' <= cs[i] && cs[i] <= '9'
        invariant
            start <= i <= cs@.len(),
            digit_run(cs@.skip(start as int)) == (i - start) + digit_run(cs@.skip(i as int)),
        decreases cs.len() - i,
    {
        assert(cs@.skip(i as int).drop_first() =~= cs@.skip(i + 1));
        i = i + 1;
    }
    proof {
        lemma_digit_run_le(cs@.skip(i as int));
    }
    i - start
}

proof fn lemma_digit_run_le(s: Seq<char>)
    ensures
        digit_run(s) <= s.len(),
    decreases s.len(),
{
    if s.len() > 0 && '0' <= s[0] && s[0] <= '9' {
        lemma_digit_run_le(s.drop_first());
    }
}

fn eq_ignore_case_at(cs: &Vec<char>, start: usize, w: &Vec<char>) -> (r: bool)
    requires
        start <= cs@.len(),
    ensures
        r == eq_ignore_case(cs@.skip(start as int), w@),
{
    let ghost s = cs@.skip(start as int);
    if cs.len() - start != w.len() {
        return false;
    }
    let mut i: usize = 0;
    while i < w.len()
        invariant
            i <= w@.len(),
            s.len() == w@.len(),
            s == cs@.skip(start as int),
            start + w@.len() == cs@.len(),
            cs@.len() == cs.len(),
            forall|k: int| 0 <= k < i ==> ascii_lower(#[trigger] s[k]) == w@[k],
        decreases w.len() - i,
    {
        let c = cs[start + i];
        let d = w[i];
        assert(s[i as int] == c);
        let ok = to_ascii_lower(c) == d;
        if !ok {
            return false;
        }
        i = i + 1;
    }
    true
}

/// True iff `cs[start..]` is a float literal `str::parse::<f64>` accepts.
pub fn float_syntax_ok(cs: &Vec<char>, start: usize) -> (r: bool)
    requires
        start <= cs@.len(),
    ensures
        r == spec_float_syntax(cs@.skip(start as int)),
{
    let ghost s = cs@.skip(start as int);
    let mut b = start;
    if b < cs.len() && (cs[b] == '+' || cs[b] == '-') {
        b = b + 1;
    }
    let ghost body = cs@.skip(b as int);
    assert(body =~= (if s.len() > 0 && (s[0] == '+' || s[0] == '-') {
        s.drop_first()
    } else {
        s
    }));
    let inf = vec!['i', 'n', 'f'];
    let infinity = vec!['i', 'n', 'f', 'i', 'n', 'i', 't', 'y'];
    let nan = vec!['n', 'a', 'n'];
    assert(inf@ =~= seq!['i', 'n', 'f']);
    assert(infinity@ =~= seq!['i', 'n', 'f', 'i', 'n', 'i', 't', 'y']);
    assert(nan@ =~= seq!['n', 'a', 'n']);
    if eq_ignore_case_at(cs, b, &inf) || eq_ignore_case_at(cs, b, &infinity) || eq_ignore_case_at(
        cs,
        b,
        &nan,
    ) {
        return true;
    }
    decimal_ok_at(cs, b)
}

fn exponent_ok_at(cs: &Vec<char>, p: usize) -> (r: bool)
    requires
        p <= cs@.len(),
    ensures
        r == ({
            let rest = cs@.skip(p as int);
            rest.len() == 0 || ((rest[0] == 'e' || rest[0] == 'E') && {
                let e = rest.drop_first();
                let e2 = if e.len() > 0 && (e[0] == '+' || e[0] == '-') {
                    e.drop_first()
                } else {
                    e
                };
                e2.len() > 0 && digit_run(e2) == e2.len()
            })
        }),
{
    let ghost rest = cs@.skip(p as int);
    if p == cs.len() {
        return true;
    }
    assert(rest[0] == cs@[p as int]);
    if !(cs[p] == 'e' || cs[p] == 'E') {
        return false;
    }
    let mut q = p + 1;
    assert(rest.drop_first() =~= cs@.skip(q as int));
    if q < cs.len() && (cs[q] == '+' || cs[q] == '-') {
        assert(cs@.skip(q as int).drop_first() =~= cs@.skip(q + 1));
        q = q + 1;
    }
    if q == cs.len() {
        return false;
    }
    let e = digit_run_at(cs, q);
    e == cs.len() - q
}

#[verifier::rlimit(30)]
fn decimal_ok_at(cs: &Vec<char>, b: usize) -> (r: bool)
    requires
        b <= cs@.len(),
    ensures
        r == float_decimal_ok(cs@.skip(b as int)),
{
    let ghost body = cs@.skip(b as int);
    let a = digit_run_at(cs, b);
    assert(cs@.len() == cs.len());
    let mut p = b + a;
    assert(body.skip(a as int) =~= cs@.skip(p as int));
    let frac_ok;
    if p < cs.len() && cs[p] == '.' {
        assert(cs@.skip(p as int).drop_first() =~= cs@.skip(p + 1));
        let f = digit_run_at(cs, p + 1);
        frac_ok = a > 0 || f > 0;
        assert(cs@.skip(p as int).drop_first().skip(f as int) =~= cs@.skip(p + 1 + f));
        p = p + 1 + f;
    } else {
        frac_ok = a > 0;
    }
    if !frac_ok {
        return false;
    }
    exponent_ok_at(cs, p)
}

// ── C escapes ───────────────────────────────────────────────────────────

/// Length (at most `max`) of the run of bytes at the start of `b` that
/// satisfy the octal (`hex == false`) or hex digit test.
pub open spec fn byte_digit_run(b: Seq<u8>, max: nat, hex: bool) -> nat
    decreases max,
{
    if max == 0 || b.len() == 0 {
        0
    } else if (if hex {
        byte_hex_value(b[0]) is Some
    } else {
        0x30 <= b[0] <= 0x37
    }) {
        1 + byte_digit_run(b.drop_first(), (max - 1) as nat, hex)
    } else {
        0
    }
}

/// Hex digit value of an ASCII byte.
pub open spec fn byte_hex_value(b: u8) -> Option<nat> {
    if 0x30 <= b <= 0x39 {
        Some((b - 0x30) as nat)
    } else if 0x61 <= b <= 0x66 {
        Some((b - 0x61 + 10) as nat)
    } else if 0x41 <= b <= 0x46 {
        Some((b - 0x41 + 10) as nat)
    } else {
        None
    }
}

/// Value of a run of digit bytes in base 8 or 16 (first digit most
/// significant).
pub open spec fn bytes_value(b: Seq<u8>, radix: nat) -> nat
    decreases b.len(),
{
    if b.len() == 0 {
        0
    } else {
        bytes_value(b.drop_last(), radix) * radix + (if radix == 16 {
            match byte_hex_value(b.last()) {
                Some(d) => d,
                None => 0,
            }
        } else {
            (b.last() - 0x30) as nat
        })
    }
}

/// `u32::from_str_radix(.., 16)` on a fixed-width ASCII field: an optional
/// `+`, then only hex digits (at least one).
pub open spec fn fixed_hex_value(b: Seq<u8>) -> Option<nat> {
    let body = plus_body(b);
    if body.len() > 0 && all_hex(body) {
        Some(bytes_value(body, 16))
    } else {
        None
    }
}

/// `b` without one leading `+`.
pub open spec fn plus_body(b: Seq<u8>) -> Seq<u8> {
    if b.len() > 0 && b[0] == 0x2b {
        b.drop_first()
    } else {
        b
    }
}

/// Every byte of `b` is an ASCII hex digit.
pub open spec fn all_hex(b: Seq<u8>) -> bool {
    forall|i: int| 0 <= i < b.len() ==> byte_hex_value(#[trigger] b[i]) is Some
}

/// The bytes one simple (single-character) escape `\c` stands for.
pub open spec fn simple_escape(c: u8) -> Option<u8> {
    if c == 0x61 {
        Some(0x07u8)
    } else if c == 0x62 {
        Some(0x08u8)
    } else if c == 0x66 {
        Some(0x0cu8)
    } else if c == 0x6e {
        Some(0x0au8)
    } else if c == 0x72 {
        Some(0x0du8)
    } else if c == 0x74 {
        Some(0x09u8)
    } else if c == 0x76 {
        Some(0x0bu8)
    } else if c == 0x5c {
        Some(0x5cu8)
    } else if c == 0x27 {
        Some(0x27u8)
    } else if c == 0x22 {
        Some(0x22u8)
    } else if c == 0x3f {
        Some(0x3fu8)
    } else {
        None
    }
}

/// UTF-8 bytes of a code point when it is a Unicode scalar, else nothing.
pub open spec fn scalar_bytes(v: nat) -> Seq<u8> {
    if v < 0x1_0000_0000 && is_scalar(v as u32) {
        encode_scalar(v as u32)
    } else {
        seq![]
    }
}

/// One escape sequence at the start of `b` (which begins with `\`): the
/// bytes it stands for and how many input bytes it spans. `None` for a
/// lone `\`, an unknown escape, `\x` without digits, or a short or
/// non-hex `\u` / `\U`.
pub open spec fn escape_step(b: Seq<u8>) -> Option<(Seq<u8>, nat)> {
    if b.len() < 2 {
        None
    } else {
        let c = b[1];
        if simple_escape(c) is Some {
            Some((seq![simple_escape(c)->0], 2))
        } else if 0x30 <= c <= 0x37 {
            let n = byte_digit_run(b.skip(1), 3, false);
            Some((seq![(bytes_value(b.subrange(1, 1 + n as int), 8) % 256) as u8], 1 + n))
        } else if c == 0x78 || c == 0x58 {
            let n = byte_digit_run(b.skip(2), 2, true);
            if n == 0 {
                None
            } else {
                Some((seq![(bytes_value(b.subrange(2, 2 + n as int), 16) % 256) as u8], 2 + n))
            }
        } else if c == 0x75 || c == 0x55 {
            let w: nat = if c == 0x75 {
                4
            } else {
                8
            };
            if b.len() < 2 + w {
                None
            } else {
                match fixed_hex_value(b.subrange(2, 2 + w as int)) {
                    None => None,
                    Some(v) => Some((scalar_bytes(v), 2 + w)),
                }
            }
        } else {
            None
        }
    }
}

pub proof fn lemma_escape_step_len(b: Seq<u8>)
    ensures
        escape_step(b) matches Some((e, n)) ==> 1 <= n <= b.len(),
{
    if b.len() >= 2 {
        lemma_run_digits(b.skip(1), 3, false);
        lemma_run_digits(b.skip(2), 2, true);
    }
}

/// Decode C-style escapes in `b`: `\a \b \f \n \r \t \v \\ \' \" \?`,
/// up to three octal digits, `\x` with one or two hex digits, `\uXXXX`
/// and `\UXXXXXXXX` (emitted as UTF-8; non-scalars vanish). Other bytes
/// are copied.
pub open spec fn spec_unescape(b: Seq<u8>) -> Option<Seq<u8>>
    decreases b.len(),
{
    if b.len() == 0 {
        Some(seq![])
    } else if b[0] != 0x5c {
        match spec_unescape(b.drop_first()) {
            Some(r) => Some(seq![b[0]] + r),
            None => None,
        }
    } else {
        match escape_step(b) {
            None => None,
            Some((e, n)) => {
                proof {
                    lemma_escape_step_len(b);
                }
                match spec_unescape(b.skip(n as int)) {
                    Some(r) => Some(e + r),
                    None => None,
                }
            },
        }
    }
}

fn hex_byte_value(b: u8) -> (r: Option<u32>)
    ensures
        r matches Some(d) ==> byte_hex_value(b) == Some(d as nat) && d < 16,
        r is None ==> byte_hex_value(b) is None,
{
    if 0x30 <= b && b <= 0x39 {
        Some((b - 0x30) as u32)
    } else if 0x61 <= b && b <= 0x66 {
        Some((b - 0x61 + 10) as u32)
    } else if 0x41 <= b && b <= 0x46 {
        Some((b - 0x41 + 10) as u32)
    } else {
        None
    }
}

fn simple_escape_of(c: u8) -> (r: Option<u8>)
    ensures
        r == simple_escape(c),
{
    if c == 0x61 {
        Some(0x07u8)
    } else if c == 0x62 {
        Some(0x08u8)
    } else if c == 0x66 {
        Some(0x0cu8)
    } else if c == 0x6e {
        Some(0x0au8)
    } else if c == 0x72 {
        Some(0x0du8)
    } else if c == 0x74 {
        Some(0x09u8)
    } else if c == 0x76 {
        Some(0x0bu8)
    } else if c == 0x5c {
        Some(0x5cu8)
    } else if c == 0x27 {
        Some(0x27u8)
    } else if c == 0x22 {
        Some(0x22u8)
    } else if c == 0x3f {
        Some(0x3fu8)
    } else {
        None
    }
}

/// Count digit bytes at `bytes[start..]`, at most `max`.
fn digit_run_bytes(bytes: &[u8], start: usize, max: usize, hex: bool) -> (n: usize)
    requires
        start <= bytes@.len(),
    ensures
        n == byte_digit_run(bytes@.skip(start as int), max as nat, hex),
        n <= max,
        start + n <= bytes@.len(),
    decreases max,
{
    if max == 0 || start >= bytes.len() {
        return 0;
    }
    let b = bytes[start];
    let ok = if hex {
        hex_byte_value(b).is_some()
    } else {
        0x30 <= b && b <= 0x37
    };
    assert(bytes@.skip(start as int)[0] == b);
    if ok {
        assert(bytes@.skip(start as int).drop_first() =~= bytes@.skip(start + 1));
        1 + digit_run_bytes(bytes, start + 1, max - 1, hex)
    } else {
        0
    }
}

/// Value of the digit bytes `bytes[start..end]` in base 8 or 16.
fn bytes_value_of(bytes: &[u8], start: usize, end: usize, radix: u32) -> (r: u64)
    requires
        start <= end <= bytes@.len(),
        end - start <= 8,
        radix == 8 || radix == 16,
        forall|i: int|
            start <= i < end ==> (if radix == 16 {
                byte_hex_value(#[trigger] bytes@[i]) is Some
            } else {
                0x30 <= bytes@[i] <= 0x37
            }),
    ensures
        r == bytes_value(bytes@.subrange(start as int, end as int), radix as nat),
        r < 0x1_0000_0000,
{
    let mut acc: u64 = 0;
    let mut i = start;
    assert(bytes@.subrange(start as int, start as int) =~= Seq::<u8>::empty());
    while i < end
        invariant
            start <= i <= end <= bytes@.len(),
            end - start <= 8,
            radix == 8 || radix == 16,
            forall|k: int|
                start <= k < end ==> (if radix == 16 {
                    byte_hex_value(#[trigger] bytes@[k]) is Some
                } else {
                    0x30 <= bytes@[k] <= 0x37
                }),
            acc == bytes_value(bytes@.subrange(start as int, i as int), radix as nat),
            acc < pow_radix(radix as nat, (i - start) as nat),
        decreases end - i,
    {
        let b = bytes[i];
        let d: u64 = if radix == 16 {
            match hex_byte_value(b) {
                Some(d) => d as u64,
                None => 0,
            }
        } else {
            (b - 0x30) as u64
        };
        assert(bytes@.subrange(start as int, i + 1).drop_last() =~= bytes@.subrange(
            start as int,
            i as int,
        ));
        assert(bytes@.subrange(start as int, i + 1).last() == b);
        proof {
            lemma_pow_radix_bound(radix as nat, (i - start) as nat);
            assert(acc * radix + d < pow_radix(radix as nat, (i - start + 1) as nat)) by (
            nonlinear_arith)
                requires
                    acc < pow_radix(radix as nat, (i - start) as nat),
                    d < radix,
                    pow_radix(radix as nat, (i - start + 1) as nat) == radix * pow_radix(
                        radix as nat,
                        (i - start) as nat,
                    ),
            ;
        }
        acc = acc * (radix as u64) + d;
        i = i + 1;
    }
    proof {
        lemma_pow_radix_bound(radix as nat, (end - start) as nat);
    }
    acc
}

/// `radix ^ e`.
pub open spec fn pow_radix(radix: nat, e: nat) -> nat
    decreases e,
{
    if e == 0 {
        1
    } else {
        radix * pow_radix(radix, (e - 1) as nat)
    }
}

proof fn lemma_pow_radix_bound(radix: nat, e: nat)
    requires
        radix == 8 || radix == 16,
        e <= 8,
    ensures
        pow_radix(radix, e) <= 0x1_0000_0000,
        pow_radix(radix, e + 1) == radix * pow_radix(radix, e),
        pow_radix(radix, e) * radix <= 0x10_0000_0000,
{
    reveal_with_fuel(pow_radix, 10);
    if radix == 8 {
        assert(pow_radix(8, 8) == 16777216);
    } else {
        assert(pow_radix(16, 8) == 0x1_0000_0000);
    }
    assert(pow_radix(radix, e) <= pow_radix(radix, 8)) by {
        lemma_pow_radix_mono(radix, e, 8);
    }
}

proof fn lemma_pow_radix_mono(radix: nat, a: nat, b: nat)
    requires
        radix >= 1,
        a <= b,
    ensures
        pow_radix(radix, a) <= pow_radix(radix, b),
    decreases b,
{
    if a < b {
        lemma_pow_radix_mono(radix, a, (b - 1) as nat);
        assert(pow_radix(radix, (b - 1) as nat) <= radix * pow_radix(radix, (b - 1) as nat)) by (
        nonlinear_arith)
            requires
                radix >= 1,
        ;
    }
}

/// Append the UTF-8 encoding of `v` when it is a Unicode scalar.
fn push_scalar(out: &mut Vec<u8>, v: u32)
    ensures
        final(out)@ == old(out)@ + scalar_bytes(v as nat),
{
    let scalar = v <= 0x7f || (0x80 <= v && v <= 0x7ff) || (0x800 <= v && v <= 0xffff && !(0xd800
        <= v && v <= 0xdfff)) || (0x10000 <= v && v <= 0x10ffff);
    if !scalar {
        assert(scalar_bytes(v as nat) =~= Seq::<u8>::empty());
        return ;
    }
    if v <= 0x7f {
        out.push((v & 0x7f) as u8);
    } else if v <= 0x7ff {
        out.push(0xc0 | ((v >> 6) & 0x1f) as u8);
        out.push(0x80 | (v & 0x3f) as u8);
    } else if v <= 0xffff {
        out.push(0xe0 | ((v >> 12) & 0x0f) as u8);
        out.push(0x80 | ((v >> 6) & 0x3f) as u8);
        out.push(0x80 | (v & 0x3f) as u8);
    } else {
        out.push(0xf0 | ((v >> 18) & 0x7) as u8);
        out.push(0x80 | ((v >> 12) & 0x3f) as u8);
        out.push(0x80 | ((v >> 6) & 0x3f) as u8);
        out.push(0x80 | (v & 0x3f) as u8);
    }
    assert(final(out)@ =~= old(out)@ + scalar_bytes(v as nat));
}

/// Parse a fixed-width `\u` / `\U` hex field `bytes[start..start+w]`.
fn fixed_hex_at(bytes: &[u8], start: usize, w: usize) -> (r: Option<u32>)
    requires
        start + w <= bytes@.len(),
        w == 4 || w == 8,
    ensures
        r matches Some(v) ==> fixed_hex_value(bytes@.subrange(start as int, start + w)) == Some(
            v as nat,
        ),
        r is None ==> fixed_hex_value(bytes@.subrange(start as int, start + w)) is None,
{
    let ghost f = bytes@.subrange(start as int, start + w);
    assert(bytes@.len() == bytes.len());
    let mut s = start;
    if bytes[start] == 0x2b {
        s = start + 1;
    }
    let ghost body = bytes@.subrange(s as int, start + w);
    assert(body =~= (if f.len() > 0 && f[0] == 0x2b {
        f.drop_first()
    } else {
        f
    }));
    let mut i = s;
    while i < start + w
        invariant
            s <= i <= start + w <= bytes@.len(),
            bytes@.len() == bytes.len(),
            body == bytes@.subrange(s as int, start + w),
            f == bytes@.subrange(start as int, start + w),
            body == (if f.len() > 0 && f[0] == 0x2b {
                f.drop_first()
            } else {
                f
            }),
            forall|k: int| s <= k < i ==> byte_hex_value(#[trigger] bytes@[k]) is Some,
        decreases start + w - i,
    {
        if hex_byte_value(bytes[i]).is_none() {
            assert(body[i - s] == bytes@[i as int]);
            assert(byte_hex_value(body[i - s]) is None);
            return None;
        }
        i = i + 1;
    }
    if s == start + w {
        assert(body.len() == 0);
        return None;
    }
    assert forall|k: int| 0 <= k < body.len() implies byte_hex_value(#[trigger] body[k]) is Some by {
        assert(body[k] == bytes@[s + k]);
    }
    let v = bytes_value_of(bytes, s, start + w, 16);
    Some(v as u32)
}

/// The message for an escape sequence that does not decode; `s` starts at
/// its `\\`.
pub open spec fn escape_fault(s: Seq<u8>) -> Seq<char> {
    if s.len() < 2 {
        "default string ends in `\\`"@
    } else {
        let c = s[1];
        if c == 0x78 || c == 0x58 {
            "`\\x` with no hex digits"@
        } else if c == 0x75 || c == 0x55 {
            let w: int = if c == 0x75 {
                4
            } else {
                8
            };
            if s.len() < 2 + w {
                if c == 0x75 {
                    "`\\u` with fewer than 4 hex digits"@
                } else {
                    "`\\U` with fewer than 8 hex digits"@
                }
            } else if !valid_utf8(s.subrange(2, 2 + w)) {
                if c == 0x75 {
                    "`\\u` non-ASCII"@
                } else {
                    "`\\U` non-ASCII"@
                }
            } else if c == 0x75 {
                "`\\u` invalid hex"@
            } else {
                "`\\U` invalid hex"@
            }
        } else {
            "unknown escape `\\"@ + seq![c as char] + "`"@
        }
    }
}

/// Where unescaping `b` fails, the message of the first escape that does
/// not decode.
pub open spec fn spec_unescape_fault(b: Seq<u8>) -> Option<Seq<char>>
    decreases b.len(),
{
    if b.len() == 0 {
        None
    } else if b[0] != 0x5c {
        spec_unescape_fault(b.drop_first())
    } else {
        match escape_step(b) {
            None => Some(escape_fault(b)),
            Some((e, n)) => {
                proof {
                    lemma_escape_step_len(b);
                }
                spec_unescape_fault(b.skip(n as int))
            },
        }
    }
}

/// Decode the escape sequence at `bytes[i]` (a `\\`): the bytes it
/// stands for and the position after it.
fn escape_at(bytes: &[u8], i: usize) -> (r: Result<(Vec<u8>, usize), String>)
    requires
        i < bytes@.len(),
        bytes@[i as int] == 0x5c,
    ensures
        r is Ok <==> escape_step(bytes@.skip(i as int)) is Some,
        r matches Ok((e, p)) ==> escape_step(bytes@.skip(i as int)) == Some((e@, (p - i) as nat))
            && i < p <= bytes@.len(),
        r matches Err(m) ==> m@ == escape_fault(bytes@.skip(i as int)),
{
    let ghost s = bytes@.skip(i as int);
    proof {
        lemma_escape_step_len(s);
    }
    if bytes.len() - i < 2 {
        return Err("default string ends in `\\`".to_owned());
    }
    let e = bytes[i + 1];
    assert(s[1] == e);
    let mut out: Vec<u8> = Vec::new();
    match simple_escape_of(e) {
        Some(x) => {
            out.push(x);
            assert(out@ =~= seq![x]);
            return Ok((out, i + 2));
        },
        None => {},
    }
    if 0x30 <= e && e <= 0x37 {
        let n = digit_run_bytes(bytes, i + 1, 3, false);
        assert(s.skip(1) =~= bytes@.skip(i + 1));
        proof {
            lemma_run_digits(bytes@.skip(i + 1), 3, false);
            assert forall|k: int| i + 1 <= k < i + 1 + n implies 0x30 <= #[trigger] bytes@[k]
                <= 0x37 by {
                assert(bytes@[k] == bytes@.skip(i + 1)[k - i - 1]);
            }
        }
        let v = bytes_value_of(bytes, i + 1, i + 1 + n, 8);
        assert(s.subrange(1, 1 + n as int) =~= bytes@.subrange(i + 1, i + 1 + n));
        out.push((v % 256) as u8);
        assert(out@ =~= seq![(v % 256) as u8]);
        return Ok((out, i + 1 + n));
    }
    if e == 0x78 || e == 0x58 {
        let n = digit_run_bytes(bytes, i + 2, 2, true);
        assert(s.skip(2) =~= bytes@.skip(i + 2));
        if n == 0 {
            return Err("`\\x` with no hex digits".to_owned());
        }
        proof {
            lemma_run_digits(bytes@.skip(i + 2), 2, true);
            assert forall|k: int| i + 2 <= k < i + 2 + n implies byte_hex_value(
                #[trigger] bytes@[k],
            ) is Some by {
                assert(bytes@[k] == bytes@.skip(i + 2)[k - i - 2]);
            }
        }
        let v = bytes_value_of(bytes, i + 2, i + 2 + n, 16);
        assert(s.subrange(2, 2 + n as int) =~= bytes@.subrange(i + 2, i + 2 + n));
        out.push((v % 256) as u8);
        assert(out@ =~= seq![(v % 256) as u8]);
        return Ok((out, i + 2 + n));
    }
    if e == 0x75 || e == 0x55 {
        let w: usize = if e == 0x75 {
            4
        } else {
            8
        };
        if bytes.len() - i < 2 + w {
            if e == 0x75 {
                return Err("`\\u` with fewer than 4 hex digits".to_owned());
            } else {
                return Err("`\\U` with fewer than 8 hex digits".to_owned());
            }
        }
        assert(s.subrange(2, 2 + w as int) =~= bytes@.subrange(i + 2, i + 2 + w));
        match fixed_hex_at(bytes, i + 2, w) {
            None => {
                let mut window: Vec<u8> = Vec::new();
                let mut k: usize = 0;
                while k < w
                    invariant
                        k <= w,
                        i + 2 + w <= bytes@.len(),
                        bytes@.len() <= usize::MAX,
                        window@ == bytes@.subrange(i + 2, i + 2 + k),
                    decreases w - k,
                {
                    window.push(bytes[i + 2 + k]);
                    k = k + 1;
                    assert(window@ =~= bytes@.subrange(i + 2, i + 2 + k));
                }
                let text = String::from_utf8(window);
                if text.is_err() {
                    if e == 0x75 {
                        return Err("`\\u` non-ASCII".to_owned());
                    } else {
                        return Err("`\\U` non-ASCII".to_owned());
                    }
                }
                if e == 0x75 {
                    return Err("`\\u` invalid hex".to_owned());
                } else {
                    return Err("`\\U` invalid hex".to_owned());
                }
            },
            Some(v) => {
                push_scalar(&mut out, v);
                assert(out@ =~= scalar_bytes(v as nat));
                return Ok((out, i + 2 + w));
            },
        }
    }
    let mut m = "unknown escape `\\".to_owned();
    m.push(e as char);
    m.push_str("`");
    Err(m)
}

/// Decode C-style escape sequences in `raw`.
pub fn decode_c_escapes_bytes(raw: &str) -> (r: Result<Vec<u8>, String>)
    ensures
        r is Ok <==> spec_unescape(raw.spec_bytes()) is Some,
        r matches Ok(v) ==> Some(v@) == spec_unescape(raw.spec_bytes()),
        r matches Err(m) ==> spec_unescape_fault(raw.spec_bytes()) == Some(m@),
{
    let bytes = raw.as_bytes();
    let ghost all = bytes@;
    let mut out: Vec<u8> = Vec::new();
    let mut i: usize = 0;
    assert(all.skip(0) =~= all);
    while i < bytes.len()
        invariant
            i <= bytes@.len(),
            all == bytes@,
            all == raw.spec_bytes(),
            spec_unescape(all) == match spec_unescape(all.skip(i as int)) {
                Some(r) => Some(out@ + r),
                None => None::<Seq<u8>>,
            },
            spec_unescape_fault(all) == spec_unescape_fault(all.skip(i as int)),
        decreases bytes.len() - i,
    {
        let ghost s = all.skip(i as int);
        let c = bytes[i];
        assert(s[0] == c);
        if c != 0x5c {
            assert(s.drop_first() =~= all.skip(i + 1));
            let ghost before = out@;
            out.push(c);
            proof {
                match spec_unescape(all.skip(i + 1)) {
                    Some(r) => {
                        assert(before + (seq![c] + r) =~= out@ + r);
                    },
                    None => {},
                }
            }
            i = i + 1;
        } else {
            match escape_at(bytes, i) {
                Err(m) => {
                    return Err(m);
                },
                Ok((e, p)) => {
                    assert(s.skip((p - i) as int) =~= all.skip(p as int));
                    let ghost before = out@;
                    let mut k: usize = 0;
                    while k < e.len()
                        invariant
                            k <= e@.len(),
                            out@ == before + e@.take(k as int),
                        decreases e.len() - k,
                    {
                        out.push(e[k]);
                        k = k + 1;
                        assert(out@ =~= before + e@.take(k as int));
                    }
                    assert(e@.take(e@.len() as int) =~= e@);
                    proof {
                        match spec_unescape(all.skip(p as int)) {
                            Some(r) => {
                                assert(before + (e@ + r) =~= out@ + r);
                            },
                            None => {},
                        }
                    }
                    i = p;
                },
            }
        }
    }
    assert(all.skip(i as int) =~= Seq::<u8>::empty());
    assert(out@ + Seq::<u8>::empty() =~= out@);
    Ok(out)
}

pub proof fn lemma_run_digits(b: Seq<u8>, max: nat, hex: bool)
    ensures
        byte_digit_run(b, max, hex) <= b.len(),
        byte_digit_run(b, max, hex) <= max,
        forall|k: int|
            0 <= k < byte_digit_run(b, max, hex) ==> (if hex {
                byte_hex_value(#[trigger] b[k]) is Some
            } else {
                0x30 <= b[k] <= 0x37
            }),
    decreases max,
{
    if max > 0 && b.len() > 0 && byte_digit_run(b, max, hex) > 0 {
        lemma_run_digits(b.drop_first(), (max - 1) as nat, hex);
        assert forall|k: int| 0 <= k < byte_digit_run(b, max, hex) implies (if hex {
            byte_hex_value(#[trigger] b[k]) is Some
        } else {
            0x30 <= b[k] <= 0x37
        }) by {
            if k > 0 {
                assert(b[k] == b.drop_first()[k - 1]);
            }
        }
    }
}

} // verus!
