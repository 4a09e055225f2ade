//! Little-endian integers and the NIBArchive variable-length integer.
//!
//! Every reader here takes its position as given and requires the bytes
//! it touches to be in range, so that none of them can fail.

use vstd::prelude::*;

verus! {

/// Unsigned value of the two bytes at `p`, least significant first.
pub open spec fn le_u16(s: Seq<u8>, p: int) -> int {
    s[p] + 256 * s[p + 1]
}

/// Unsigned value of the four bytes at `p`, least significant first.
pub open spec fn le_u32(s: Seq<u8>, p: int) -> int {
    s[p] + 256 * s[p + 1] + 65536 * s[p + 2] + 16777216 * s[p + 3]
}

/// Unsigned value of the eight bytes at `p`, least significant first.
pub open spec fn le_u64(s: Seq<u8>, p: int) -> int {
    le_u32(s, p) + 4294967296 * le_u32(s, p + 4)
}

/// The two's complement reading of an unsigned value `u < modulus`.
pub open spec fn twos_complement(u: int, modulus: int) -> int {
    if u >= modulus / 2 {
        u - modulus
    } else {
        u
    }
}

/// Reads a `u32` stored little-endian at `offset`.
pub fn read_u32_le(data: &[u8], offset: usize) -> (v: u32)
    requires
        offset + 4 <= data@.len(),
    ensures
        v == le_u32(data@, offset as int),
{
    let b0 = data[offset] as u32;
    let b1 = data[offset + 1] as u32;
    let b2 = data[offset + 2] as u32;
    let b3 = data[offset + 3] as u32;
    b0 + b1 * 256 + b2 * 65536 + b3 * 16777216
}

/// Reads a `u64` stored little-endian at `offset`.
pub fn read_u64_le(data: &[u8], offset: usize) -> (v: u64)
    requires
        offset + 8 <= data@.len(),
    ensures
        v == le_u64(data@, offset as int),
{
    let len = data.len();
    assert(offset + 8 <= len);
    let lo = read_u32_le(data, offset) as u64;
    let hi = read_u32_le(data, offset + 4) as u64;
    lo + hi * 4294967296
}

/// Reads an `i16` stored little-endian (two's complement) at `offset`.
pub fn read_i16_le(data: &[u8], offset: usize) -> (v: i16)
    requires
        offset + 2 <= data@.len(),
    ensures
        v == twos_complement(le_u16(data@, offset as int), 65536),
{
    let u = data[offset] as u32 + data[offset + 1] as u32 * 256;
    if u >= 32768 {
        (u as i32 - 65536) as i16
    } else {
        u as i16
    }
}

/// Reads an `i32` stored little-endian (two's complement) at `offset`.
pub fn read_i32_le(data: &[u8], offset: usize) -> (v: i32)
    requires
        offset + 4 <= data@.len(),
    ensures
        v == twos_complement(le_u32(data@, offset as int), 4294967296),
{
    let u = read_u32_le(data, offset);
    if u >= 2147483648 {
        (u as i64 - 4294967296) as i32
    } else {
        u as i32
    }
}

/// Reads an `i64` stored little-endian (two's complement) at `offset`.
pub fn read_i64_le(data: &[u8], offset: usize) -> (v: i64)
    requires
        offset + 8 <= data@.len(),
    ensures
        v == twos_complement(le_u64(data@, offset as int), 18446744073709551616),
{
    let u = read_u64_le(data, offset);
    if u >= 9223372036854775808 {
        ((u - 9223372036854775808) as i64) + i64::MIN
    } else {
        u as i64
    }
}

/// `128` to the power `e`.
pub open spec fn pow128(e: nat) -> nat
    decreases e,
{
    if e == 0 {
        1
    } else {
        128 * pow128((e - 1) as nat)
    }
}

/// The varint starting at `pos` ends with the first byte whose high bit is
/// set, which must come within its first five bytes (a sixth byte would be
/// shifted past the width of a `u32`). The result is the position just past
/// that byte, or `None` where no such byte lies in range.
pub open spec fn varint_end_from(s: Seq<u8>, pos: int, i: nat) -> Option<int>
    decreases 5 - i,
{
    if i >= 5 || pos < 0 || pos + i >= s.len() {
        None
    } else if s[pos + i] >= 128 {
        Some(pos + i + 1)
    } else {
        varint_end_from(s, pos, i + 1)
    }
}

/// Where the varint at `pos` ends, if it is complete (see `varint_end_from`).
pub open spec fn varint_end(s: Seq<u8>, pos: int) -> Option<int> {
    varint_end_from(s, pos, 0)
}

/// The low seven bits of the first `i` bytes at `pos`, least significant group first.
pub open spec fn septets(s: Seq<u8>, pos: int, i: nat) -> nat
    decreases i,
{
    if i == 0 {
        0
    } else {
        septets(s, pos, (i - 1) as nat) + (s[pos + i - 1] % 128) as nat * pow128((i - 1) as nat)
    }
}

/// Value of the varint occupying `s[pos..end]`: its septets, truncated to 32 bits.
pub open spec fn varint_value(s: Seq<u8>, pos: int, end: int) -> u32 {
    (septets(s, pos, (end - pos) as nat) % 4294967296) as u32
}

proof fn lemma_septets_bound(s: Seq<u8>, pos: int, i: nat)
    ensures
        septets(s, pos, i) < pow128(i),
    decreases i,
{
    if i > 0 {
        lemma_septets_bound(s, pos, (i - 1) as nat);
        let d = (s[pos + i - 1] % 128) as nat;
        let p = pow128((i - 1) as nat);
        assert(d * p <= 127 * p) by (nonlinear_arith)
            requires
                d <= 127,
        ;
    }
}

proof fn lemma_varint_end_shape(s: Seq<u8>, pos: int, i: nat)
    requires
        varint_end_from(s, pos, i) is Some,
    ensures
        i < 5,
        0 <= pos,
        pos + i < s.len(),
        pos + i < varint_end_from(s, pos, i)->0 <= pos + 5,
        varint_end_from(s, pos, i)->0 <= s.len(),
    decreases 5 - i,
{
    if s[pos + i] < 128 {
        lemma_varint_end_shape(s, pos, i + 1);
    }
}

/// Whether a complete varint starts at `pos`.
pub fn varint_available(data: &[u8], pos: usize) -> (ok: bool)
    ensures
        ok == (varint_end(data@, pos as int) is Some),
{
    let mut i: usize = 0;
    while i < 5
        invariant
            i <= 5,
            varint_end_from(data@, pos as int, i as nat) == varint_end(data@, pos as int),
        decreases 5 - i,
    {
        if pos >= data.len() || i >= data.len() - pos {
            return false;
        }
        if data[pos + i] >= 128 {
            return true;
        }
        i = i + 1;
    }
    false
}

/// Reads the varint at `*pos` and moves `*pos` past it.
///
/// Bytes carry seven bits of the value each, least significant group first;
/// the last byte of the varint is the first one with its high bit set.
pub fn read_varint(data: &[u8], pos: &mut usize) -> (v: u32)
    requires
        varint_end(data@, *old(pos) as int) is Some,
    ensures
        *final(pos) == varint_end(data@, *old(pos) as int)->0,
        v == varint_value(data@, *old(pos) as int, *final(pos) as int),
{
    let start = *pos;
    let ghost end = varint_end(data@, start as int)->0;
    proof {
        lemma_varint_end_shape(data@, start as int, 0);
    }
    let mut acc: u64 = 0;
    let mut mult: u64 = 1;
    let mut i: usize = 0;
    loop
        invariant_except_break
            *pos == start + i,
            varint_end_from(data@, start as int, i as nat) == Some(end),
            acc == septets(data@, start as int, i as nat),
            mult == pow128(i as nat),
        ensures
            *pos == end,
            acc == septets(data@, start as int, (end - start) as nat),
        decreases 5 - i,
    {
        proof {
            lemma_varint_end_shape(data@, start as int, i as nat);
            lemma_septets_bound(data@, start as int, i as nat);
        }
        assert(mult <= 268435456) by {
            assert(pow128(0) == 1);
            assert(pow128(1) == 128);
            assert(pow128(2) == 16384);
            assert(pow128(3) == 2097152);
            assert(pow128(4) == 268435456);
        }
        let byte = data[*pos];
        *pos = *pos + 1;
        let digit = (byte % 128) as u64;
        assert(digit * mult <= 127 * 268435456) by (nonlinear_arith)
            requires
                digit <= 127,
                mult <= 268435456,
        ;
        acc = acc + digit * mult;
        if byte >= 128 {
            break;
        }
        mult = mult * 128;
        i = i + 1;
    }
    (acc % 4294967296) as u32
}

} // verus!
