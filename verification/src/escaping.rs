//! Laws of the escaping of string and bytes literals in the text format.

use vstd::prelude::*;
use vstd::utf8::encode_utf8;

use crate::literal::{byte_digit_run, bytes_value, escape_step, simple_escape, spec_unescape};
use crate::textfmt::{escape, escape_byte, octal_digit};

verus! {

/// The bytes of a sequence of ASCII characters.
pub open spec fn ascii_bytes(cs: Seq<char>) -> Seq<u8> {
    Seq::new(cs.len(), |i: int| cs[i] as u8)
}

proof fn lemma_escape_front(b: u8, rest: Seq<u8>)
    ensures
        escape(seq![b] + rest) == escape_byte(b) + escape(rest),
    decreases rest.len(),
{
    let s = seq![b] + rest;
    if rest.len() == 0 {
        assert(s.drop_last() =~= Seq::<u8>::empty());
        assert(s.last() == b);
        assert(escape(s.drop_last()) =~= Seq::<char>::empty());
        assert(escape(s) == escape(s.drop_last()) + escape_byte(b));
        assert(escape(rest) =~= Seq::<char>::empty());
        assert(escape_byte(b) + escape(rest) =~= escape_byte(b));
        assert(Seq::<char>::empty() + escape_byte(b) =~= escape_byte(b));
    } else {
        assert(s.drop_last() =~= seq![b] + rest.drop_last());
        assert(s.last() == rest.last());
        lemma_escape_front(b, rest.drop_last());
        assert(escape_byte(b) + escape(rest.drop_last()) + escape_byte(rest.last()) =~= escape_byte(b)
            + escape(rest));
    }
}

proof fn lemma_octal_split(b: u8)
    ensures
        (b as int / 64) * 64 + ((b as int / 8) % 8) * 8 + b as int % 8 == b as int,
        b as int / 64 < 4,
{
    assert((b as int / 64) * 64 + ((b as int / 8) % 8) * 8 + b as int % 8 == b as int) by (nonlinear_arith);
    assert(b as int / 64 < 4) by (nonlinear_arith);
}

/// One escaped byte in front of `tail` unescapes to that byte in front of
/// what `tail` unescapes to.
proof fn lemma_unescape_piece(b: u8, tail: Seq<u8>)
    ensures
        spec_unescape(ascii_bytes(escape_byte(b)) + tail) == (match spec_unescape(tail) {
            Some(r) => Some(seq![b] + r),
            None => None,
        }),
{
    let e = escape_byte(b);
    let x = ascii_bytes(e) + tail;
    if b == 0x0a || b == 0x0d || b == 0x09 || b == 0x5c || b == 0x22 || b == 0x27 {
        assert(e.len() == 2 && e[0] == '\\');
        assert(x[0] == 0x5c);
        assert(x.len() >= 2);
        assert(simple_escape(x[1]) == Some(b));
        assert(escape_step(x) == Some((seq![b], 2nat)));
        assert(x.skip(2) =~= tail);
    } else if 0x20 <= b <= 0x7e {
        assert(e == seq![b as char]);
        assert(x[0] == b);
        assert(x.drop_first() =~= tail);
    } else {
        lemma_octal_split(b);
        let d1 = b as int / 64;
        let d2 = (b as int / 8) % 8;
        let d3 = b as int % 8;
        assert(e == seq!['\\', octal_digit(d1), octal_digit(d2), octal_digit(d3)]);
        assert(x[0] == 0x5c);
        assert(x[1] == 0x30 + d1);
        assert(x[2] == 0x30 + d2);
        assert(x[3] == 0x30 + d3);
        assert(simple_escape(x[1]) is None);
        let y = x.skip(1);
        assert(y[0] == x[1] && y[1] == x[2] && y[2] == x[3]);
        assert(y.drop_first()[0] == x[2]);
        assert(y.drop_first().drop_first()[0] == x[3]);
        reveal_with_fuel(byte_digit_run, 4);
        assert(byte_digit_run(y, 3, false) == 3);
        let w = x.subrange(1, 4);
        assert(w.drop_last() =~= x.subrange(1, 3));
        assert(w.drop_last().drop_last() =~= x.subrange(1, 2));
        assert(w.drop_last().drop_last().drop_last() =~= Seq::<u8>::empty());
        reveal_with_fuel(bytes_value, 4);
        assert(bytes_value(w, 8) == (d1 * 8 + d2) * 8 + d3) by (nonlinear_arith)
            requires
                bytes_value(w, 8) == (bytes_value(x.subrange(1, 2), 8) * 8 + (x[2] - 0x30)) * 8
                    + (x[3] - 0x30),
                bytes_value(x.subrange(1, 2), 8) == d1,
                x[2] - 0x30 == d2,
                x[3] - 0x30 == d3,
        {
        }
        assert(escape_step(x) == Some((seq![b], 4nat)));
        assert(x.skip(4) =~= tail);
    }
}

proof fn lemma_unescape_escape(bs: Seq<u8>)
    ensures
        spec_unescape(ascii_bytes(escape(bs))) == Some(bs),
    decreases bs.len(),
{
    if bs.len() == 0 {
        assert(ascii_bytes(escape(bs)) =~= Seq::<u8>::empty());
    } else {
        let b = bs[0];
        let rest = bs.drop_first();
        assert(bs =~= seq![b] + rest);
        lemma_escape_front(b, rest);
        lemma_unescape_escape(rest);
        assert(ascii_bytes(escape(bs)) =~= ascii_bytes(escape_byte(b)) + ascii_bytes(escape(rest)));
        lemma_unescape_piece(b, ascii_bytes(escape(rest)));
    }
}

proof fn lemma_escape_shape(bs: Seq<u8>)
    ensures
        forall|i: int| 0 <= i < escape(bs).len() ==> ' ' <= #[trigger] escape(bs)[i] <= '~',
        bs.len() <= escape(bs).len() <= 4 * bs.len(),
    decreases bs.len(),
{
    if bs.len() > 0 {
        lemma_escape_shape(bs.drop_last());
        let b = bs.last();
        let e = escape_byte(b);
        if !(b == 0x0a || b == 0x0d || b == 0x09 || b == 0x5c || b == 0x22 || b == 0x27 || 0x20 <= b <= 0x7e) {
            lemma_octal_split(b);
        }
        assert(forall|i: int| 0 <= i < e.len() ==> ' ' <= #[trigger] e[i] <= '~');
        let p = escape(bs.drop_last());
        assert forall|i: int| 0 <= i < escape(bs).len() implies 0x20 <= (#[trigger] escape(bs)[i] as u32)
            <= 0x7e by {
            if i < p.len() {
                assert(escape(bs)[i] == p[i]);
            } else {
                assert(escape(bs)[i] == e[i - p.len()]);
            }
        }
    }
}

/// Escaping bytes for a string or bytes literal yields printable ASCII
/// only, one to four characters per byte.
pub proof fn law_escape_printable(bs: Seq<u8>)
    ensures
        forall|i: int| 0 <= i < escape(bs).len() ==> ' ' <= #[trigger] escape(bs)[i] <= '~',
        bs.len() <= escape(bs).len() <= 4 * bs.len(),
{
    lemma_escape_shape(bs);
}

/// Unescaping what the printer escaped gives the bytes back: every byte
/// sequence survives a text-format string or bytes literal.
pub proof fn law_unescape_escape(bs: Seq<u8>)
    ensures
        spec_unescape(encode_utf8(escape(bs))) == Some(bs),
{
    lemma_escape_shape(bs);
    let e = escape(bs);
    assert(vstd::utf8::is_ascii_chars(e)) by {
        assert forall|i: int| 0 <= i < e.len() implies '\0' <= #[trigger] e[i] <= '\u{7f}' by {
            assert(' ' <= e[i] <= '~');
        }
    }
    vstd::utf8::is_ascii_chars_encode_utf8(e);
    assert(encode_utf8(e) =~= ascii_bytes(e));
    lemma_unescape_escape(bs);
}

} // verus!
