//! Tokens of the protobuf text format.
//!
//! Whitespace and `#` comments separate tokens. Identifiers are
//! `[a-zA-Z_][a-zA-Z0-9_]*`; numbers are the longest match of the integer
//! forms (`0x…`, `0…` octal, decimal) and the float forms (`1.5`, `.5`,
//! `1e5`, with an optional exponent), each with an optional leading `-`;
//! strings are quoted with `"` or `'` and may contain backslash escapes.

use vstd::prelude::*;

verus! {

/// Kinds of token.
#[derive(Clone, Copy, Debug, PartialEq, Eq, Structural)]
pub enum TokenKind {
    Ident,
    Int,
    Float,
    StringLit,
    Colon,
    LBrace,
    RBrace,
    LAngle,
    RAngle,
    LBracket,
    RBracket,
    Comma,
    Semicolon,
    Dot,
    Slash,
    /// A character that starts no token.
    Error,
}

/// A token: its kind and the character range `start..end` it spans.
#[derive(Clone, Copy, Debug)]
pub struct Token {
    pub kind: TokenKind,
    pub start: usize,
    pub end: usize,
}

pub open spec fn is_letter(c: char) -> bool {
    ('a' <= c <= 'z') || ('A' <= c <= 'Z') || c == '_'
}

pub open spec fn is_digit(c: char) -> bool {
    '0' <= c <= '9'
}

pub open spec fn is_hex(c: char) -> bool {
    is_digit(c) || ('a' <= c <= 'f') || ('A' <= c <= 'F')
}

pub open spec fn is_octal(c: char) -> bool {
    '0' <= c <= '7'
}

/// Whether `c` separates tokens.
pub open spec fn is_space(c: char) -> bool {
    c == ' ' || c == '\t' || c == '\r' || c == '\n'
}

/// Character classes that runs are taken of: decimal digits, hex digits,
/// octal digits, identifier characters.
pub open spec fn in_class(class: u8, c: char) -> bool {
    if class == 0 {
        is_digit(c)
    } else if class == 1 {
        is_hex(c)
    } else if class == 2 {
        is_octal(c)
    } else {
        is_letter(c) || is_digit(c)
    }
}

/// Length of the run of characters of `class` from `p` on.
pub open spec fn run_len(cs: Seq<char>, p: int, class: u8) -> nat
    decreases cs.len() - p,
{
    if 0 <= p < cs.len() && in_class(class, cs[p]) {
        1 + run_len(cs, p + 1, class)
    } else {
        0
    }
}

/// Length of an exponent `[eE][-+]?[0-9]+` at `p`, or 0.
pub open spec fn exponent_at(cs: Seq<char>, p: int) -> nat {
    if 0 <= p < cs.len() && (cs[p] == 'e' || cs[p] == 'E') {
        let q = if p + 1 < cs.len() && (cs[p + 1] == '-' || cs[p + 1] == '+') {
            p + 2
        } else {
            p + 1
        };
        let d = run_len(cs, q, 0);
        if d > 0 {
            (q + d - p) as nat
        } else {
            0
        }
    } else {
        0
    }
}

/// Lengths of the longest integer and of the longest float literal at `p`
/// (sign excluded); 0 where there is none.
pub open spec fn numbers_at(cs: Seq<char>, p: int) -> (nat, nat) {
    let digits = run_len(cs, p, 0);
    let hex = if digits > 0 && cs[p] == '0' && p + 1 < cs.len() && (cs[p + 1] == 'x' || cs[p
        + 1] == 'X') {
        run_len(cs, p + 2, 1)
    } else {
        0
    };
    let int_len = if hex > 0 && 2 + hex > digits {
        2 + hex
    } else {
        digits
    };
    let float_len = if digits > 0 {
        let q = p + digits;
        if q < cs.len() && cs[q] == '.' {
            let frac = run_len(cs, q + 1, 0);
            digits + 1 + frac + exponent_at(cs, q + 1 + frac)
        } else if exponent_at(cs, q) > 0 {
            digits + exponent_at(cs, q)
        } else {
            0
        }
    } else if 0 <= p < cs.len() && cs[p] == '.' && run_len(cs, p + 1, 0) > 0 {
        let frac = run_len(cs, p + 1, 0);
        1 + frac + exponent_at(cs, p + 1 + frac)
    } else {
        0
    };
    (int_len as nat, float_len as nat)
}

/// Where the blanks (whitespace, and `#` comments up to the end of their
/// line) that start at `p` end; `in_comment` says whether `p` lies inside
/// a comment.
pub open spec fn blank_end(cs: Seq<char>, p: int, in_comment: bool) -> int
    decreases cs.len() - p,
{
    if p < 0 || p >= cs.len() {
        p
    } else if in_comment {
        blank_end(cs, p + 1, cs[p] != '\n')
    } else if is_space(cs[p]) {
        blank_end(cs, p + 1, false)
    } else if cs[p] == '#' {
        blank_end(cs, p + 1, true)
    } else {
        p
    }
}

/// Where the quoted string whose body starts at `q` ends (after its
/// closing `quote`), or -1 if it is not closed.
pub open spec fn string_end(cs: Seq<char>, quote: char, q: int) -> int
    decreases cs.len() - q,
{
    if q < 0 || q >= cs.len() {
        -1
    } else if cs[q] == quote {
        q + 1
    } else if cs[q] == '\\' && q + 1 < cs.len() {
        string_end(cs, quote, q + 2)
    } else {
        string_end(cs, quote, q + 1)
    }
}

/// The kind of a one-character token.
pub open spec fn punct_kind(c: char) -> TokenKind {
    if c == ':' {
        TokenKind::Colon
    } else if c == '{' {
        TokenKind::LBrace
    } else if c == '}' {
        TokenKind::RBrace
    } else if c == '<' {
        TokenKind::LAngle
    } else if c == '>' {
        TokenKind::RAngle
    } else if c == '[' {
        TokenKind::LBracket
    } else if c == ']' {
        TokenKind::RBracket
    } else if c == ',' {
        TokenKind::Comma
    } else if c == ';' {
        TokenKind::Semicolon
    } else if c == '/' {
        TokenKind::Slash
    } else {
        TokenKind::Error
    }
}

/// The kind and length of the token that starts at `p`.
pub open spec fn token_at(cs: Seq<char>, p: int) -> (TokenKind, nat) {
    let c = cs[p];
    if is_letter(c) {
        (TokenKind::Ident, 1 + run_len(cs, p + 1, 3))
    } else if is_digit(c) || c == '-' || c == '.' {
        let sign: int = if c == '-' {
            1
        } else {
            0
        };
        let lens = numbers_at(cs, p + sign);
        if lens.1 > 0 && lens.1 > lens.0 {
            (TokenKind::Float, (sign + lens.1) as nat)
        } else if lens.0 > 0 {
            (TokenKind::Int, (sign + lens.0) as nat)
        } else if c == '.' {
            (TokenKind::Dot, 1)
        } else {
            (TokenKind::Error, 1)
        }
    } else if c == '"' || c == '\'' {
        let e = string_end(cs, c, p + 1);
        if e >= 0 {
            (TokenKind::StringLit, (e - p) as nat)
        } else {
            (TokenKind::Error, 1)
        }
    } else {
        (punct_kind(c), 1)
    }
}

/// The tokens of `cs` from `p` on, where `p` is where the blanks before a
/// token end.
pub open spec fn lex_from(cs: Seq<char>, p: int) -> Seq<Token>
    decreases cs.len() - p,
{
    if p < 0 || p >= cs.len() {
        seq![]
    } else {
        let t = token_at(cs, p);
        let q = blank_end(cs, p + t.1, false);
        if p < q <= cs.len() {
            seq![Token { kind: t.0, start: p as usize, end: (p + t.1) as usize }] + lex_from(cs, q)
        } else {
            seq![]
        }
    }
}

/// The tokens of `cs`.
pub open spec fn lexed(cs: Seq<char>) -> Seq<Token> {
    lex_from(cs, blank_end(cs, 0, false))
}

proof fn lemma_run_len(cs: Seq<char>, p: int, class: u8)
    requires
        0 <= p <= cs.len(),
    ensures
        p + run_len(cs, p, class) <= cs.len(),
    decreases cs.len() - p,
{
    if p < cs.len() && in_class(class, cs[p]) {
        lemma_run_len(cs, p + 1, class);
    }
}

proof fn lemma_blank_end(cs: Seq<char>, p: int, in_comment: bool)
    requires
        0 <= p <= cs.len(),
    ensures
        p <= blank_end(cs, p, in_comment) <= cs.len(),
    decreases cs.len() - p,
{
    if p < cs.len() {
        if in_comment {
            lemma_blank_end(cs, p + 1, cs[p] != '\n');
        } else if is_space(cs[p]) || cs[p] == '#' {
            lemma_blank_end(cs, p + 1, cs[p] == '#');
        }
    }
}

proof fn lemma_string_end(cs: Seq<char>, quote: char, q: int)
    requires
        0 <= q,
    ensures
        string_end(cs, quote, q) == -1 || q < string_end(cs, quote, q) <= cs.len(),
    decreases cs.len() - q,
{
    if q < cs.len() && cs[q] != quote {
        if cs[q] == '\\' && q + 1 < cs.len() {
            lemma_string_end(cs, quote, q + 2);
        } else {
            lemma_string_end(cs, quote, q + 1);
        }
    }
}

/// The run of characters of `class` from `p` on.
fn run(cs: &Vec<char>, p: usize, class: u8) -> (n: usize)
    requires
        p <= cs@.len(),
    ensures
        p + n <= cs@.len(),
        n == run_len(cs@, p as int, class),
        forall|k: int| p <= k < p + n ==> in_class(class, #[trigger] cs@[k]),
        p + n < cs@.len() ==> !in_class(class, cs@[p + n]),
{
    let mut q = p;
    while q < cs.len()
        invariant
            p <= q <= cs@.len(),
            forall|k: int| p <= k < q ==> in_class(class, #[trigger] cs@[k]),
            run_len(cs@, p as int, class) == (q - p) + run_len(cs@, q as int, class),
        decreases cs@.len() - q,
    {
        let c = cs[q];
        let ok = if class == 0 {
            '0' <= c && c <= '9'
        } else if class == 1 {
            ('0' <= c && c <= '9') || ('a' <= c && c <= 'f') || ('A' <= c && c <= 'F')
        } else if class == 2 {
            '0' <= c && c <= '7'
        } else {
            ('a' <= c && c <= 'z') || ('A' <= c && c <= 'Z') || c == '_' || ('0' <= c && c <= '9')
        };
        if !ok {
            return q - p;
        }
        q = q + 1;
    }
    q - p
}

/// Length of an exponent `[eE][-+]?[0-9]+` at `p`, or 0.
fn exponent_len(cs: &Vec<char>, p: usize) -> (n: usize)
    requires
        p <= cs@.len(),
    ensures
        p + n <= cs@.len(),
        n == exponent_at(cs@, p as int),
{
    if p < cs.len() && (cs[p] == 'e' || cs[p] == 'E') {
        let mut q = p + 1;
        if q < cs.len() && (cs[q] == '-' || cs[q] == '+') {
            q = q + 1;
        }
        let d = run(cs, q, 0);
        if d > 0 {
            return q + d - p;
        }
    }
    0
}

/// Longest integer and float matches starting at `p` (after any sign).
fn number_lengths(cs: &Vec<char>, p: usize) -> (r: (usize, usize))
    requires
        p <= cs@.len(),
    ensures
        p + r.0 <= cs@.len(),
        p + r.1 <= cs@.len(),
        (r.0 as nat, r.1 as nat) == numbers_at(cs@, p as int),
{
    let len = cs.len();
    let digits = run(cs, p, 0);
    let mut int_len = digits;
    if digits > 0 && cs[p] == '0' {
        if p + 1 < cs.len() && (cs[p + 1] == 'x' || cs[p + 1] == 'X') {
            let h = run(cs, p + 2, 1);
            if h > 0 && 2 + h > int_len {
                int_len = 2 + h;
            }
        }
    }
    let mut float_len: usize = 0;
    if digits > 0 {
        let q = p + digits;
        if q < cs.len() && cs[q] == '.' {
            let frac = run(cs, q + 1, 0);
            let e = exponent_len(cs, q + 1 + frac);
            float_len = digits + 1 + frac + e;
        } else {
            let e = exponent_len(cs, q);
            if e > 0 {
                float_len = digits + e;
            }
        }
    } else if p < cs.len() && cs[p] == '.' {
        let frac = run(cs, p + 1, 0);
        if frac > 0 {
            let e = exponent_len(cs, p + 1 + frac);
            float_len = 1 + frac + e;
        }
    }
    (int_len, float_len)
}

/// Skip whitespace and `#` comments from `p`.
fn skip_blank(cs: &Vec<char>, p: usize) -> (q: usize)
    requires
        p <= cs@.len(),
    ensures
        p <= q <= cs@.len(),
        q == blank_end(cs@, p as int, false),
{
    let mut q = p;
    while q < cs.len()
        invariant
            p <= q <= cs@.len(),
            blank_end(cs@, p as int, false) == blank_end(cs@, q as int, false),
        decreases cs@.len() - q,
    {
        let c = cs[q];
        if c == ' ' || c == '\t' || c == '\r' || c == '\n' {
            q = q + 1;
        } else if c == '#' {
            q = q + 1;
            let start = q;
            while q < cs.len() && cs[q] != '\n'
                invariant
                    p < start <= q <= cs@.len(),
                    blank_end(cs@, p as int, false) == blank_end(cs@, q as int, true),
                decreases cs@.len() - q,
            {
                q = q + 1;
            }
        } else {
            return q;
        }
    }
    q
}

/// Length of the quoted string that starts at `p` (with the quote that
/// `cs[p]` holds), backslash escapes included; 0 if it is not closed.
fn string_len(cs: &Vec<char>, p: usize) -> (n: usize)
    requires
        p < cs@.len(),
    ensures
        n == 0 || (2 <= n && p + n <= cs@.len()),
        n == (if string_end(cs@, cs@[p as int], p + 1) >= 0 {
            string_end(cs@, cs@[p as int], p + 1) - p
        } else {
            0
        }),
{
    let len = cs.len();
    let quote = cs[p];
    let mut q = p + 1;
    while q < cs.len()
        invariant
            p < q <= cs@.len(),
            quote == cs@[p as int],
            string_end(cs@, quote, p + 1) == string_end(cs@, quote, q as int),
        decreases cs@.len() - q,
    {
        if cs[q] == quote {
            return q + 1 - p;
        }
        if cs[q] == '\\' && q + 1 < cs.len() {
            q = q + 2;
        } else {
            q = q + 1;
        }
    }
    0
}

/// Split `cs` into tokens. A character that starts no token becomes an
/// `Error` token of its own, and lexing goes on after it.
pub fn tokenize(cs: &Vec<char>) -> (ts: Vec<Token>)
    ensures
        ts@ == lexed(cs@),
        ts@.len() <= cs@.len(),
        forall|i: int|
            0 <= i < ts@.len() && (#[trigger] ts@[i]).kind == TokenKind::StringLit ==> ts@[i].end
                - ts@[i].start >= 2,
        forall|i: int|
            0 <= i < ts@.len() ==> (#[trigger] ts@[i]).start < ts@[i].end <= cs@.len(),
        forall|i: int, j: int|
            0 <= i < j < ts@.len() ==> (#[trigger] ts@[i]).end <= (#[trigger] ts@[j]).start,
{
    let n = cs.len();
    let mut out: Vec<Token> = Vec::new();
    let mut p = skip_blank(cs, 0);
    while p < cs.len()
        invariant
            p <= cs@.len(),
            out@.len() <= p,
            forall|i: int|
                0 <= i < out@.len() && (#[trigger] out@[i]).kind == TokenKind::StringLit
                    ==> out@[i].end - out@[i].start >= 2,
            forall|i: int|
                0 <= i < out@.len() ==> (#[trigger] out@[i]).start < out@[i].end <= p,
            forall|i: int, j: int|
                0 <= i < j < out@.len() ==> (#[trigger] out@[i]).end <= (#[trigger] out@[j]).start,
            out@ + lex_from(cs@, p as int) == lexed(cs@),
        decreases cs@.len() - p,
    {
        let c = cs[p];
        let (kind, len): (TokenKind, usize) = if ('a' <= c && c <= 'z') || ('A' <= c && c <= 'Z')
            || c == '_' {
            (TokenKind::Ident, 1 + run(cs, p + 1, 3))
        } else if ('0' <= c && c <= '9') || c == '-' || c == '.' {
            let sign: usize = if c == '-' {
                1
            } else {
                0
            };
            let (il, fl) = number_lengths(cs, p + sign);
            if fl > 0 && fl > il {
                (TokenKind::Float, sign + fl)
            } else if il > 0 {
                (TokenKind::Int, sign + il)
            } else if c == '.' {
                (TokenKind::Dot, 1)
            } else {
                (TokenKind::Error, 1)
            }
        } else if c == '"' || c == '\'' {
            let n = string_len(cs, p);
            proof {
                lemma_string_end(cs@, c, p + 1);
            }
            if n > 0 {
                (TokenKind::StringLit, n)
            } else {
                (TokenKind::Error, 1)
            }
        } else if c == ':' {
            (TokenKind::Colon, 1)
        } else if c == '{' {
            (TokenKind::LBrace, 1)
        } else if c == '}' {
            (TokenKind::RBrace, 1)
        } else if c == '<' {
            (TokenKind::LAngle, 1)
        } else if c == '>' {
            (TokenKind::RAngle, 1)
        } else if c == '[' {
            (TokenKind::LBracket, 1)
        } else if c == ']' {
            (TokenKind::RBracket, 1)
        } else if c == ',' {
            (TokenKind::Comma, 1)
        } else if c == ';' {
            (TokenKind::Semicolon, 1)
        } else if c == '/' {
            (TokenKind::Slash, 1)
        } else {
            (TokenKind::Error, 1)
        };
        assert(1 <= len && p + len <= cs@.len());
        assert(kind == TokenKind::StringLit ==> len >= 2);
        assert((kind, len as nat) == token_at(cs@, p as int));
        let ghost before = out@;
        let ghost from = p;
        out.push(Token { kind, start: p, end: p + len });
        p = skip_blank(cs, p + len);
        proof {
            assert(lex_from(cs@, from as int) == seq![Token { kind, start: from, end: (from + len) as usize }]
                + lex_from(cs@, p as int));
            assert(out@ + lex_from(cs@, p as int) =~= before + lex_from(cs@, from as int));
        }
    }
    proof {
        assert(out@ + lex_from(cs@, p as int) =~= out@);
    }
    out
}

} // verus!
