//! Protobuf binary wire-format primitives: base-128 varints, zigzag,
//! tags, and little-endian fixed-width integers.
//!
//! Every reader takes a byte slice and a starting position and returns the
//! decoded value together with the position just past it. The spec
//! functions describe the wire format over `Seq<u8>`.

use vstd::prelude::*;

use crate::error::DecodeError;

verus! {

/// Largest legal protobuf field number, `2^29 - 1`.
pub const MAX_FIELD_NUMBER: u32 = 536_870_911;

/// The six protobuf wire types.
#[derive(Clone, Copy, Debug, PartialEq, Eq, Structural)]
pub enum WireType {
    Varint,
    Fixed64,
    LengthDelimited,
    StartGroup,
    EndGroup,
    Fixed32,
}

/// Numeric code of a wire type on the wire.
pub open spec fn wire_code(w: WireType) -> nat {
    match w {
        WireType::Varint => 0,
        WireType::Fixed64 => 1,
        WireType::LengthDelimited => 2,
        WireType::StartGroup => 3,
        WireType::EndGroup => 4,
        WireType::Fixed32 => 5,
    }
}

/// Wire type for a numeric code, if the code is one of 0..=5.
pub open spec fn wire_of_code(c: int) -> Option<WireType> {
    if c == 0 {
        Some(WireType::Varint)
    } else if c == 1 {
        Some(WireType::Fixed64)
    } else if c == 2 {
        Some(WireType::LengthDelimited)
    } else if c == 3 {
        Some(WireType::StartGroup)
    } else if c == 4 {
        Some(WireType::EndGroup)
    } else if c == 5 {
        Some(WireType::Fixed32)
    } else {
        None
    }
}

impl WireType {
    /// The numeric code of this wire type.
    pub fn code(self) -> (c: u8)
        ensures
            c == wire_code(self),
    {
        match self {
            WireType::Varint => 0,
            WireType::Fixed64 => 1,
            WireType::LengthDelimited => 2,
            WireType::StartGroup => 3,
            WireType::EndGroup => 4,
            WireType::Fixed32 => 5,
        }
    }
}

// ── varints ─────────────────────────────────────────────────────────────

/// Base-128 little-endian encoding of `v`: seven payload bits per byte,
/// high bit set on every byte but the last.
pub open spec fn spec_varint(v: nat) -> Seq<u8>
    decreases v,
{
    if v < 128 {
        seq![v as u8]
    } else {
        seq![(v % 128 + 128) as u8] + spec_varint(v / 128)
    }
}

/// Upper bound on the value carried by a varint suffix that starts as the
/// `k`-th byte (0-based) of a varint: `2^(64 - 7k)`.
pub open spec fn varint_bound(k: nat) -> nat
    decreases 9 - k,
{
    if k >= 9 {
        2
    } else {
        128 * varint_bound(k + 1)
    }
}

/// Decode the varint suffix that begins at byte `k` of a varint, reading
/// from `s`. The result is the (unshifted) value of the suffix and the
/// number of bytes consumed. The tenth byte may only carry bit 63.
pub open spec fn spec_varint_from(s: Seq<u8>, k: nat) -> Result<(nat, nat), DecodeError>
    decreases s.len(),
{
    if s.len() == 0 {
        Err(DecodeError::UnexpectedEof)
    } else if k >= 9 {
        if s[0] >= 2 {
            Err(DecodeError::VarintTooLong)
        } else {
            Ok((s[0] as nat, 1))
        }
    } else if s[0] < 128 {
        Ok((s[0] as nat, 1))
    } else {
        match spec_varint_from(s.drop_first(), k + 1) {
            Ok((v, n)) => Ok((((s[0] - 128) + 128 * v) as nat, n + 1)),
            Err(e) => Err(e),
        }
    }
}

/// Decode one varint at the start of `s`.
pub open spec fn spec_decode_varint(s: Seq<u8>) -> Result<(nat, nat), DecodeError> {
    spec_varint_from(s, 0)
}

pub proof fn lemma_varint_bound_zero()
    ensures
        varint_bound(0) == 0x1_0000_0000_0000_0000,
        varint_bound(1) == 0x200_0000_0000_0000,
{
    reveal_with_fuel(varint_bound, 10);
}

pub proof fn lemma_varint_bound_ge2(k: nat)
    ensures
        varint_bound(k) >= 2,
        k < 9 ==> varint_bound(k) == 128 * varint_bound(k + 1),
    decreases 9 - k,
{
    if k < 9 {
        lemma_varint_bound_ge2(k + 1);
    }
}

/// A decoded varint suffix starting at byte `k` is below `varint_bound(k)`
/// and consumes at least one byte but no more than the input holds.
pub proof fn lemma_varint_from_bounds(s: Seq<u8>, k: nat)
    ensures
        spec_varint_from(s, k) matches Ok((v, n)) ==> v < varint_bound(k) && 1 <= n <= s.len()
            && n <= 10 - k || k >= 9,
        spec_varint_from(s, k) matches Ok((v, n)) ==> v < varint_bound(k) && 1 <= n <= s.len(),
    decreases s.len(),
{
    lemma_varint_bound_ge2(k);
    if s.len() > 0 && k < 9 && s[0] >= 128 {
        lemma_varint_from_bounds(s.drop_first(), k + 1);
        lemma_varint_bound_ge2(k + 1);
    }
}

/// The encoding of a value below `varint_bound(k)` decodes back from
/// position `k`, whatever follows it.
pub proof fn lemma_varint_from_roundtrip(v: nat, k: nat, rest: Seq<u8>)
    requires
        v < varint_bound(k),
    ensures
        spec_varint_from(spec_varint(v) + rest, k) == Ok::<(nat, nat), DecodeError>(
            (v, spec_varint(v).len()),
        ),
    decreases v,
{
    lemma_varint_bound_ge2(k);
    let s = spec_varint(v) + rest;
    if v < 128 {
        assert(s[0] == v as u8);
        if k >= 9 {
            assert(v < 2);
        }
    } else {
        assert(k < 9) by {
            if k >= 9 {
                assert(varint_bound(k) == 2);
            }
        }
        let tail = spec_varint(v / 128);
        assert(s.drop_first() =~= tail + rest);
        lemma_varint_from_roundtrip(v / 128, k + 1, rest);
    }
}

/// Varint round trip: decoding the encoding of any `u64` yields the value
/// and consumes exactly the encoded bytes, whatever bytes follow.
pub proof fn lemma_varint_roundtrip(v: u64, rest: Seq<u8>)
    ensures
        spec_decode_varint(spec_varint(v as nat) + rest) == Ok::<(nat, nat), DecodeError>(
            (v as nat, spec_varint(v as nat).len()),
        ),
{
    lemma_varint_bound_zero();
    lemma_varint_from_roundtrip(v as nat, 0, rest);
}

/// A varint is between one and ten bytes long.
pub proof fn lemma_varint_len(v: nat)
    ensures
        1 <= spec_varint(v).len(),
        v < 0x1_0000_0000_0000_0000 ==> spec_varint(v).len() <= 10,
        v < 128 ==> spec_varint(v).len() == 1,
{
    lemma_varint_len_bound(v, 0);
    lemma_varint_bound_zero();
}

proof fn lemma_varint_len_bound(v: nat, k: nat)
    ensures
        1 <= spec_varint(v).len(),
        k <= 9 && v < varint_bound(k) ==> spec_varint(v).len() <= 10 - k,
    decreases v,
{
    lemma_varint_bound_ge2(k);
    if v >= 128 {
        lemma_varint_len_bound(v / 128, k + 1);
        if k <= 9 && v < varint_bound(k) {
            if k == 9 {
                assert(varint_bound(9) == 2);
            }
        }
    }
}

/// Append the varint encoding of `v` to `out`.
pub fn encode_varint(v: u64, out: &mut Vec<u8>)
    ensures
        final(out)@ == old(out)@ + spec_varint(v as nat),
    decreases v,
{
    if v < 128 {
        out.push(v as u8);
        assert(spec_varint(v as nat) =~= seq![v as u8]);
    } else {
        let low: u8 = (v % 128 + 128) as u8;
        out.push(low);
        encode_varint(v / 128, out);
        assert(spec_varint(v as nat) =~= seq![low] + spec_varint((v / 128) as nat));
    }
}

/// Number of bytes in the varint encoding of `v`.
pub fn varint_len(v: u64) -> (n: usize)
    ensures
        n == spec_varint(v as nat).len(),
        1 <= n <= 10,
    decreases v,
{
    proof {
        lemma_varint_len(v as nat);
    }
    if v < 128 {
        1
    } else {
        let r = varint_len(v / 128);
        r + 1
    }
}

fn decode_varint_from(buf: &[u8], pos: usize, k: u8) -> (r: Result<(u64, usize), DecodeError>)
    requires
        pos <= buf@.len(),
        k <= 9,
    ensures
        r is Ok <==> spec_varint_from(buf@.skip(pos as int), k as nat) is Ok,
        r matches Ok((v, n)) ==> spec_varint_from(buf@.skip(pos as int), k as nat) == Ok::<
            (nat, nat),
            DecodeError,
        >((v as nat, n as nat)) && 1 <= n <= buf@.len() - pos && v < varint_bound(k as nat),
        r matches Err(e) ==> spec_varint_from(buf@.skip(pos as int), k as nat) == Err::<
            (nat, nat),
            DecodeError,
        >(e),
    decreases buf@.len() - pos,
{
    proof {
        lemma_varint_from_bounds(buf@.skip(pos as int), k as nat);
        lemma_varint_bound_ge2(k as nat);
        lemma_varint_bound_zero();
    }
    let ghost s = buf@.skip(pos as int);
    if pos >= buf.len() {
        return Err(DecodeError::UnexpectedEof);
    }
    let b = buf[pos];
    assert(s[0] == b);
    if k >= 9 {
        if b >= 2 {
            Err(DecodeError::VarintTooLong)
        } else {
            Ok((b as u64, 1))
        }
    } else if b < 128 {
        Ok((b as u64, 1))
    } else {
        assert(s.drop_first() =~= buf@.skip(pos + 1));
        let inner = decode_varint_from(buf, pos + 1, k + 1);
        match inner {
            Ok((v, n)) => {
                proof {
                    lemma_varint_bound_ge2(k as nat + 1);
                    if k == 0 {
                        assert(v < 0x200_0000_0000_0000);
                    }
                    assert(128 * varint_bound(k as nat + 1) <= 0x1_0000_0000_0000_0000) by {
                        lemma_varint_bound_mono(0, k as nat);
                    }
                }
                Ok(((b - 128) as u64 + 128 * v, n + 1))
            },
            Err(e) => Err(e),
        }
    }
}

proof fn lemma_varint_bound_mono(j: nat, k: nat)
    requires
        j <= k,
    ensures
        varint_bound(k) <= varint_bound(j),
    decreases k - j,
{
    lemma_varint_bound_ge2(j);
    if j < k {
        lemma_varint_bound_mono(j + 1, k);
        lemma_varint_bound_ge2(j);
    }
}

/// Decode one varint starting at `buf[pos]`. On success returns the value
/// and the position just past the varint.
pub fn decode_varint(buf: &[u8], pos: usize) -> (r: Result<(u64, usize), DecodeError>)
    requires
        pos <= buf@.len(),
    ensures
        r is Ok <==> spec_decode_varint(buf@.skip(pos as int)) is Ok,
        r matches Ok((v, p)) ==> pos < p <= buf@.len() && spec_decode_varint(buf@.skip(pos as int))
            == Ok::<(nat, nat), DecodeError>((v as nat, (p - pos) as nat)),
        r matches Err(e) ==> spec_decode_varint(buf@.skip(pos as int)) == Err::<
            (nat, nat),
            DecodeError,
        >(e),
{
    let r = decode_varint_from(buf, pos, 0);
    match r {
        Ok((v, n)) => {
            assert(buf@.len() == buf.len());
            Ok((v, pos + n))
        },
        Err(e) => Err(e),
    }
}


// ── tags ────────────────────────────────────────────────────────────────

/// The varint value a tag is written as: `number << 3 | wire type`.
pub open spec fn spec_tag_value(number: nat, w: WireType) -> nat {
    number * 8 + wire_code(w)
}

/// Decode a tag at the start of `s`: a varint that must fit in 32 bits,
/// whose low three bits name a defined wire type and whose remaining bits
/// are a non-zero field number.
pub open spec fn spec_decode_tag(s: Seq<u8>) -> Result<(nat, WireType, nat), DecodeError> {
    match spec_decode_varint(s) {
        Err(e) => Err(e),
        Ok((v, n)) => if v > 0xffff_ffff {
            Err(DecodeError::InvalidFieldNumber)
        } else {
            match wire_of_code((v % 8) as int) {
                None => Err(DecodeError::InvalidWireType((v % 8) as u32)),
                Some(w) => if v / 8 == 0 {
                    Err(DecodeError::InvalidFieldNumber)
                } else {
                    Ok((v / 8, w, n))
                },
            }
        },
    }
}

/// Append the tag for field `number` and wire type `w`.
pub fn encode_tag(number: u32, w: WireType, out: &mut Vec<u8>)
    requires
        1 <= number <= MAX_FIELD_NUMBER,
    ensures
        final(out)@ == old(out)@ + spec_varint(spec_tag_value(number as nat, w)),
{
    let value: u64 = (number as u64) * 8 + w.code() as u64;
    encode_varint(value, out);
}

/// Length in bytes of the tag for field `number` and wire type `w`.
pub fn tag_len(number: u32, w: WireType) -> (n: usize)
    ensures
        n == spec_varint(spec_tag_value(number as nat, w)).len(),
{
    varint_len((number as u64) * 8 + w.code() as u64)
}

/// Decode a tag at `buf[pos]`, returning field number, wire type and the
/// position after the tag.
pub fn decode_tag(buf: &[u8], pos: usize) -> (r: Result<(u32, WireType, usize), DecodeError>)
    requires
        pos <= buf@.len(),
    ensures
        r is Ok <==> spec_decode_tag(buf@.skip(pos as int)) is Ok,
        r matches Ok((num, w, p)) ==> pos < p <= buf@.len() && 1 <= num <= MAX_FIELD_NUMBER
            && spec_decode_tag(buf@.skip(pos as int)) == Ok::<(nat, WireType, nat), DecodeError>(
            (num as nat, w, (p - pos) as nat),
        ),
        r matches Err(e) ==> spec_decode_tag(buf@.skip(pos as int)) == Err::<
            (nat, WireType, nat),
            DecodeError,
        >(e),
{
    let r = decode_varint(buf, pos);
    match r {
        Err(e) => Err(e),
        Ok((v, p)) => {
            if v > 0xffff_ffff {
                return Err(DecodeError::InvalidFieldNumber);
            }
            let code = v % 8;
            let w = if code == 0 {
                WireType::Varint
            } else if code == 1 {
                WireType::Fixed64
            } else if code == 2 {
                WireType::LengthDelimited
            } else if code == 3 {
                WireType::StartGroup
            } else if code == 4 {
                WireType::EndGroup
            } else if code == 5 {
                WireType::Fixed32
            } else {
                return Err(DecodeError::InvalidWireType(code as u32));
            };
            let num = v / 8;
            if num == 0 {
                return Err(DecodeError::InvalidFieldNumber);
            }
            Ok((num as u32, w, p))
        },
    }
}

/// Tag round trip: the encoding of a valid tag decodes back to the same
/// field number and wire type.
pub proof fn lemma_tag_roundtrip(number: nat, w: WireType, rest: Seq<u8>)
    requires
        1 <= number <= MAX_FIELD_NUMBER,
    ensures
        spec_decode_tag(spec_varint(spec_tag_value(number, w)) + rest) == Ok::<
            (nat, WireType, nat),
            DecodeError,
        >((number, w, spec_varint(spec_tag_value(number, w)).len())),
{
    let v = spec_tag_value(number, w);
    assert(v < 0x1_0000_0000_0000_0000);
    lemma_varint_roundtrip(v as u64, rest);
    assert(v % 8 == wire_code(w));
    assert(v / 8 == number);
}

// ── zigzag ──────────────────────────────────────────────────────────────

/// ZigZag mapping of a signed integer onto the naturals:
/// `0, -1, 1, -2, …` ↦ `0, 1, 2, 3, …`.
pub open spec fn spec_zigzag(v: int) -> nat {
    if v >= 0 {
        (2 * v) as nat
    } else {
        (-2 * v - 1) as nat
    }
}

/// Inverse of [`spec_zigzag`].
pub open spec fn spec_unzigzag(u: nat) -> int {
    if u % 2 == 0 {
        (u / 2) as int
    } else {
        -((u / 2) as int) - 1
    }
}

pub proof fn lemma_zigzag_roundtrip(v: int)
    ensures
        spec_unzigzag(spec_zigzag(v)) == v,
{
}

/// ZigZag-encode an `i32`.
pub fn zigzag32(v: i32) -> (r: u32)
    ensures
        r == spec_zigzag(v as int),
{
    if v >= 0 {
        (v as u32) * 2
    } else {
        ((-(v + 1)) as u32) * 2 + 1
    }
}

/// ZigZag-encode an `i64`.
pub fn zigzag64(v: i64) -> (r: u64)
    ensures
        r == spec_zigzag(v as int),
{
    if v >= 0 {
        (v as u64) * 2
    } else {
        ((-(v + 1)) as u64) * 2 + 1
    }
}

/// ZigZag-decode a `u32`.
pub fn unzigzag32(u: u32) -> (r: i32)
    ensures
        r == spec_unzigzag(u as nat),
{
    if u % 2 == 0 {
        (u / 2) as i32
    } else {
        -((u / 2) as i32) - 1
    }
}

/// ZigZag-decode a `u64`.
pub fn unzigzag64(u: u64) -> (r: i64)
    ensures
        r == spec_unzigzag(u as nat),
{
    if u % 2 == 0 {
        (u / 2) as i64
    } else {
        -((u / 2) as i64) - 1
    }
}

// ── two's complement reinterpretation ───────────────────────────────────

/// `v` read as a 64-bit two's-complement bit pattern (sign extension for
/// negative values).
pub open spec fn spec_u64_of_int(v: int) -> nat {
    if v >= 0 {
        v as nat
    } else {
        (v + 0x1_0000_0000_0000_0000) as nat
    }
}

/// `v` read as a 32-bit two's-complement bit pattern.
pub open spec fn spec_u32_of_int(v: int) -> nat {
    if v >= 0 {
        v as nat
    } else {
        (v + 0x1_0000_0000) as nat
    }
}

/// The low 32 bits of `u`, read as a signed 32-bit integer.
pub open spec fn spec_i32_of_bits(u: nat) -> int {
    let t = u % 0x1_0000_0000;
    if t >= 0x8000_0000 {
        t - 0x1_0000_0000
    } else {
        t as int
    }
}

/// `u` (below `2^64`) read as a signed 64-bit integer.
pub open spec fn spec_i64_of_bits(u: nat) -> int {
    if u >= 0x8000_0000_0000_0000 {
        u - 0x1_0000_0000_0000_0000
    } else {
        u as int
    }
}

/// Sign-extend a signed value to its 64-bit pattern.
pub fn u64_of_i64(v: i64) -> (r: u64)
    ensures
        r == spec_u64_of_int(v as int),
{
    if v >= 0 {
        v as u64
    } else {
        0xffff_ffff_ffff_ffffu64 - ((-(v + 1)) as u64)
    }
}

/// Reinterpret a signed 32-bit value as its bit pattern.
pub fn u32_of_i32(v: i32) -> (r: u32)
    ensures
        r == spec_u32_of_int(v as int),
{
    if v >= 0 {
        v as u32
    } else {
        0xffff_ffffu32 - ((-(v + 1)) as u32)
    }
}

/// The low 32 bits of `u` as a signed 32-bit value.
pub fn i32_of_bits(u: u64) -> (r: i32)
    ensures
        r == spec_i32_of_bits(u as nat),
{
    let t: u64 = u % 0x1_0000_0000;
    if t >= 0x8000_0000 {
        (t as i64 - 0x1_0000_0000i64) as i32
    } else {
        t as i32
    }
}

/// `u` as a signed 64-bit value.
pub fn i64_of_bits(u: u64) -> (r: i64)
    ensures
        r == spec_i64_of_bits(u as nat),
{
    if u >= 0x8000_0000_0000_0000 {
        -((0xffff_ffff_ffff_ffffu64 - u) as i64) - 1
    } else {
        u as i64
    }
}

pub proof fn lemma_i64_bits_roundtrip(v: int)
    requires
        -0x8000_0000_0000_0000 <= v < 0x8000_0000_0000_0000,
    ensures
        spec_i64_of_bits(spec_u64_of_int(v)) == v,
{
}

pub proof fn lemma_i32_bits_roundtrip(v: int)
    requires
        -0x8000_0000 <= v < 0x8000_0000,
    ensures
        spec_i32_of_bits(spec_u64_of_int(v)) == v,
        spec_i32_of_bits(spec_u32_of_int(v)) == v,
{
}

// ── little-endian fixed-width ───────────────────────────────────────────

/// Value of four little-endian bytes.
pub open spec fn spec_le32(s: Seq<u8>) -> nat {
    (s[0] + 256 * s[1] + 65536 * s[2] + 16777216 * s[3]) as nat
}

/// Value of eight little-endian bytes.
pub open spec fn spec_le64(s: Seq<u8>) -> nat {
    spec_le32(s) + 0x1_0000_0000 * spec_le32(s.skip(4))
}

/// Four little-endian bytes of `v`.
pub open spec fn spec_le32_bytes(v: nat) -> Seq<u8> {
    seq![(v % 256) as u8, ((v / 256) % 256) as u8, ((v / 65536) % 256) as u8,
        ((v / 16777216) % 256) as u8]
}

/// Eight little-endian bytes of `v`.
pub open spec fn spec_le64_bytes(v: nat) -> Seq<u8> {
    spec_le32_bytes(v % 0x1_0000_0000) + spec_le32_bytes(v / 0x1_0000_0000)
}

pub proof fn lemma_le32_roundtrip(v: nat, rest: Seq<u8>)
    requires
        v < 0x1_0000_0000,
    ensures
        spec_le32(spec_le32_bytes(v) + rest) == v,
        spec_le32_bytes(v).len() == 4,
{
    let s = spec_le32_bytes(v) + rest;
    assert(s[0] == v % 256);
    assert(s[1] == (v / 256) % 256);
    assert(s[2] == (v / 65536) % 256);
    assert(s[3] == (v / 16777216) % 256);
    assert(v == v % 256 + 256 * ((v / 256) % 256) + 65536 * ((v / 65536) % 256) + 16777216 * ((v
        / 16777216) % 256)) by (nonlinear_arith)
        requires
            v < 0x1_0000_0000,
    ;
}

pub proof fn lemma_le64_roundtrip(v: nat, rest: Seq<u8>)
    requires
        v < 0x1_0000_0000_0000_0000,
    ensures
        spec_le64(spec_le64_bytes(v) + rest) == v,
        spec_le64_bytes(v).len() == 8,
{
    let lo = v % 0x1_0000_0000;
    let hi = v / 0x1_0000_0000;
    assert(hi < 0x1_0000_0000);
    let s = spec_le64_bytes(v) + rest;
    lemma_le32_roundtrip(lo, spec_le32_bytes(hi) + rest);
    assert(s =~= spec_le32_bytes(lo) + (spec_le32_bytes(hi) + rest));
    assert(s.skip(4) =~= spec_le32_bytes(hi) + rest);
    lemma_le32_roundtrip(hi, rest);
    assert(v == lo + 0x1_0000_0000 * hi);
}

/// Append four little-endian bytes of `v`.
pub fn put_fixed32(v: u32, out: &mut Vec<u8>)
    ensures
        final(out)@ == old(out)@ + spec_le32_bytes(v as nat),
{
    out.push((v % 256) as u8);
    out.push(((v / 256) % 256) as u8);
    out.push(((v / 65536) % 256) as u8);
    out.push(((v / 16777216) % 256) as u8);
    assert(final(out)@ =~= old(out)@ + spec_le32_bytes(v as nat));
}

/// Append eight little-endian bytes of `v`.
pub fn put_fixed64(v: u64, out: &mut Vec<u8>)
    ensures
        final(out)@ == old(out)@ + spec_le64_bytes(v as nat),
{
    put_fixed32((v % 0x1_0000_0000) as u32, out);
    put_fixed32((v / 0x1_0000_0000) as u32, out);
    assert(final(out)@ =~= old(out)@ + spec_le64_bytes(v as nat));
}

/// Read four little-endian bytes at `buf[pos]`.
pub fn get_fixed32(buf: &[u8], pos: usize) -> (r: Result<(u32, usize), DecodeError>)
    requires
        pos <= buf@.len(),
    ensures
        buf@.len() - pos < 4 ==> r == Err::<(u32, usize), DecodeError>(
            DecodeError::UnexpectedEof,
        ),
        buf@.len() - pos >= 4 ==> r == Ok::<(u32, usize), DecodeError>(
            (spec_le32(buf@.skip(pos as int)) as u32, (pos + 4) as usize),
        ) && spec_le32(buf@.skip(pos as int)) < 0x1_0000_0000,
{
    if buf.len() - pos < 4 {
        return Err(DecodeError::UnexpectedEof);
    }
    let v: u32 = buf[pos] as u32 + 256 * (buf[pos + 1] as u32) + 65536 * (buf[pos + 2] as u32)
        + 16777216 * (buf[pos + 3] as u32);
    Ok((v, pos + 4))
}

/// Read eight little-endian bytes at `buf[pos]`.
pub fn get_fixed64(buf: &[u8], pos: usize) -> (r: Result<(u64, usize), DecodeError>)
    requires
        pos <= buf@.len(),
    ensures
        buf@.len() - pos < 8 ==> r == Err::<(u64, usize), DecodeError>(
            DecodeError::UnexpectedEof,
        ),
        buf@.len() - pos >= 8 ==> r == Ok::<(u64, usize), DecodeError>(
            (spec_le64(buf@.skip(pos as int)) as u64, (pos + 8) as usize),
        ) && spec_le64(buf@.skip(pos as int)) < 0x1_0000_0000_0000_0000,
{
    if buf.len() - pos < 8 {
        return Err(DecodeError::UnexpectedEof);
    }
    let r1 = get_fixed32(buf, pos);
    let r2 = get_fixed32(buf, pos + 4);
    match (r1, r2) {
        (Ok((lo, _)), Ok((hi, _))) => {
            assert(buf@.skip(pos as int).skip(4) =~= buf@.skip(pos + 4));
            Ok((lo as u64 + 0x1_0000_0000 * (hi as u64), pos + 8))
        },
        _ => Err(DecodeError::UnexpectedEof),
    }
}

} // verus!
